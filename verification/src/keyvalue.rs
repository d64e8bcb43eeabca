use vstd::prelude::*;
use crate::digest::key_hash;
use crate::image::Image;
use crate::layout::NO_VALUE;
use crate::layout::VALUE_LIMIT;
use crate::layout::VALUE_SIZE;
use crate::linked::marks_kept_outside;
use crate::linked::slot_of;
use crate::logframe::marks_kept;
use crate::logframe::slots_kept;
use crate::record::frame_record;
use crate::record::framed;
use crate::record::length_in;
use crate::record::record_hash;
use crate::record::RECORD_HEADER;
use crate::record::record_len;
use crate::record::record_length;
use crate::record::slots_for;
use crate::split::same_log_header;
use crate::table::HashTable;
use crate::transaction::copy_range;
use crate::valuelog::lemma_header_readable;
use crate::valuelog::to_slot;

verus! {

impl Image {
    /// The first `n` slots of the value log from the logical offset `offset` on, one
    /// after the other.
    pub open spec fn slots_from(self, values: Map<u64, u64>, offset: u64, n: nat) -> Seq<u8>
        decreases n,
    {
        if n == 0 {
            Seq::<u8>::empty()
        } else {
            self.slots_from(values, offset, (n - 1) as nat) + self.value_at(
                values,
                (offset + 128 * (n - 1)) as u64,
            )
        }
    }

    /// The length of the record that starts at the logical offset `offset`, as its
    /// first slot gives it.
    pub open spec fn record_length_at(self, values: Map<u64, u64>, offset: u64) -> u64 {
        length_in(self.value_at(values, offset))
    }

    /// Whether a record can be read at the logical offset `offset`: the offset is a
    /// slot of the live part of the log, and the record, by its own length, holds at
    /// least its header and ends within the log.
    pub open spec fn record_ok(self, values: Map<u64, u64>, offset: u64) -> bool {
        &&& self.first_logical() <= offset < self.next_logical()
        &&& offset % VALUE_SIZE == 0
        &&& RECORD_HEADER <= self.record_length_at(values, offset) <= self.next_logical()
            - offset
    }

    /// Whether the record at the start of the log can be compacted: the log holds it
    /// whole, holds at least one slot more, and has room for a copy of it.
    pub open spec fn compactable(self, values: Map<u64, u64>) -> bool {
        &&& self.first_logical() < self.next_logical()
        &&& self.record_length_at(values, self.first_logical()) <= self.next_logical()
            - self.first_logical()
        &&& self.next_logical() - self.first_logical() - self.record_length_at(
            values,
            self.first_logical(),
        ) >= VALUE_SIZE
        &&& self.record_length_at(values, self.first_logical()) + 2 * VALUE_SIZE <= VALUE_LIMIT
            - VALUE_SIZE - self.next_logical()
    }

    /// The number of slots that compaction moves the start of the log on by: those
    /// of the record at the start of the log, and one at least.
    pub open spec fn head_slots(self, values: Map<u64, u64>) -> int {
        if self.record_length_at(values, self.first_logical()) == 0 {
            1
        } else {
            slots_for(self.record_length_at(values, self.first_logical()) as nat) as int
        }
    }

    /// The value of the record that starts at the logical offset `offset`.
    pub open spec fn payload_at(self, values: Map<u64, u64>, offset: u64) -> Seq<u8> {
        self.slots_from(
            values,
            offset,
            slots_for(self.record_length_at(values, offset) as nat),
        ).subrange(RECORD_HEADER as int, self.record_length_at(values, offset) as int)
    }

    /// What the engine holds for `hash`: the value of the record that the index
    /// points to, if the index holds the hash and a record can be read there.
    pub open spec fn fetch(
        self,
        ht: Seq<([u8; 26], u64)>,
        values: Map<u64, u64>,
        hash: Seq<u8>,
    ) -> Option<Seq<u8>> {
        let held = self.lookup(ht, hash);
        if held == NO_VALUE || !self.record_ok(values, (held - 1) as u64) {
            None
        } else {
            Some(self.payload_at(values, (held - 1) as u64))
        }
    }
}

impl HashTable {
    /// What the engine holds for `hash`: the value of the record that the index
    /// points to for the hash, if any.
    #[verifier::opaque]
    pub open spec fn stored(&self, hash: Seq<u8>) -> Option<Seq<u8>> {
        self.image().fetch(self.memory().ht, self.memory().values, hash)
    }

    /// Whether index and log belong together: the log is made of whole records, each
    /// live or deleted as a whole, and the index points for every hash that it holds,
    /// but for the hash `except`, to a live record of that hash.
    #[verifier::opaque]
    pub open spec fn linked_but(&self, except: Option<Seq<u8>>) -> bool {
        exists|recs: Seq<u64>|
            #[trigger] self.image().linked_but(
                self.memory().ht,
                self.memory().values,
                self.memory().delmap,
                recs,
                except,
            )
    }

    /// Whether index and log belong together, and a record of the log starts at the
    /// logical offset `offset`.
    #[verifier::opaque]
    pub open spec fn linked_at(&self, except: Option<Seq<u8>>, offset: u64) -> bool {
        exists|recs: Seq<u64>|
            #[trigger] self.image().linked_but(
                self.memory().ht,
                self.memory().values,
                self.memory().delmap,
                recs,
                except,
            ) && recs.contains(offset)
    }

    /// Whether the record at `offset` may be marked as deleted: index and log belong
    /// together but for the hash `except`, a record starts at `offset`, and the index
    /// points to it for no hash but `loose`, which covers `except`.
    pub open spec fn droppable(
        &self,
        except: Option<Seq<u8>>,
        loose: Option<Seq<u8>>,
        offset: u64,
    ) -> bool {
        &&& self.linked_at(except, offset)
        &&& (except is None || except == loose)
        &&& forall|hash: Seq<u8>|
            #[trigger] self.image().lookup(self.memory().ht, hash) == offset + 1 ==> loose
                == Some(hash)
    }

    /// Whether index and log belong together: the log is made of whole records, each
    /// live or deleted as a whole, and the index points for every hash that it holds
    /// to a live record of that hash.
    pub open spec fn linked(&self) -> bool {
        self.linked_but(None)
    }

    /// Whether the engine holds in `self` what it holds in `before`, for every hash
    /// but `except`.
    pub open spec fn holds_as(&self, before: &HashTable, except: Option<Seq<u8>>) -> bool {
        forall|hash: Seq<u8>|
            except != Some(hash) ==> #[trigger] self.stored(hash) == before.stored(hash)
    }

    /// The credit for compaction after `value` was written under `hash`, which the
    /// engine holds in a record that can be read, before the log is compacted: two
    /// units less for each slot of the new record, four more for each of the old.
    pub open spec fn credit_after_overwrite(&self, hash: Seq<u8>, value: Seq<u8>) -> int {
        self.memory().del_balance - 2 * slots_for(record_len(value.len())) + 4
            * self.image().record_slots(
            self.memory().values,
            (self.image().lookup(self.memory().ht, hash) - 1) as u64,
        )
    }

    /// Whether writing `value` under `hash` overwrites a record that can be read and
    /// leaves no credit for compaction.
    pub open spec fn cheap_to_overwrite(&self, hash: Seq<u8>, value: Seq<u8>) -> bool {
        &&& self.image().lookup(self.memory().ht, hash) != NO_VALUE
        &&& self.image().record_ok(
            self.memory().values,
            (self.image().lookup(self.memory().ht, hash) - 1) as u64,
        )
        &&& self.credit_after_overwrite(hash, value) <= 0
    }

    /// What the operations on keys and values work on: the image of the file, the
    /// directories and the credit for compaction.
    pub open spec fn state(&self) -> crate::steps::State {
        crate::steps::State {
            image: self.image(),
            ht: self.memory().ht,
            values: self.memory().values,
            delmap: self.memory().delmap,
            credit: self.memory().del_balance as int,
        }
    }

    /// What the engine holds: for each hash for which it holds a value, that value.
    pub open spec fn model(&self) -> Map<Seq<u8>, Seq<u8>> {
        Map::new(|hash: Seq<u8>| self.stored(hash) is Some, |hash: Seq<u8>| self.stored(hash)->0)
    }

    /// An engine that holds a value for a hash, and for every other hash what
    /// another engine holds, holds what the other holds with the value put in for
    /// the hash.
    pub proof fn lemma_model_set(&self, before: &HashTable, hash: Seq<u8>, value: Seq<u8>)
        requires
            self.stored(hash) == Some(value),
            self.holds_as(before, Some(hash)),
        ensures
            self.model() == before.model().insert(hash, value),
    {
        assert(self.model() =~= before.model().insert(hash, value));
    }

    /// An engine that holds nothing for a hash, and for every other hash what another
    /// engine holds, holds what the other holds with the hash taken out.
    pub proof fn lemma_model_delete(&self, before: &HashTable, hash: Seq<u8>)
        requires
            self.stored(hash) is None,
            self.holds_as(before, Some(hash)),
        ensures
            self.model() == before.model().remove(hash),
    {
        assert(self.model() =~= before.model().remove(hash));
    }

    /// An engine that holds for every hash what another engine holds holds the same.
    pub proof fn lemma_model_same(&self, before: &HashTable)
        requires
            self.holds_as(before, None),
        ensures
            self.model() == before.model(),
    {
        assert(self.model() =~= before.model());
    }

    /// Two engines with the same image and the same directories are linked alike, and
    /// hold the same.
    pub proof fn lemma_linked_same(&self, other: &HashTable, except: Option<Seq<u8>>)
        requires
            self.image() == other.image(),
            self.memory().ht == other.memory().ht,
            self.memory().values == other.memory().values,
            self.memory().delmap == other.memory().delmap,
        ensures
            self.linked_but(except) == other.linked_but(except),
            forall|hash: Seq<u8>| #[trigger] other.stored(hash) == self.stored(hash),
    {
        reveal(HashTable::stored);
        reveal(HashTable::linked_but);
        reveal(HashTable::linked_at);
        if self.linked_but(except) {
            let recs = choose|recs: Seq<u64>|
                #[trigger] self.image().linked_but(
                    self.memory().ht,
                    self.memory().values,
                    self.memory().delmap,
                    recs,
                    except,
                );
            assert(other.image().linked_but(
                other.memory().ht,
                other.memory().values,
                other.memory().delmap,
                recs,
                except,
            ));
        }
        if other.linked_but(except) {
            let recs = choose|recs: Seq<u64>|
                #[trigger] other.image().linked_but(
                    other.memory().ht,
                    other.memory().values,
                    other.memory().delmap,
                    recs,
                    except,
                );
            assert(self.image().linked_but(
                self.memory().ht,
                self.memory().values,
                self.memory().delmap,
                recs,
                except,
            ));
        }
    }

    /// The two ends of the value log: the logical offset of the oldest slot still in
    /// the log, and the logical offset at which the next slot is appended.
    #[verifier::spinoff_prover]
    pub fn stats(&mut self) -> (ends: (u64, u64))
        requires
            old(self).wf(),
        ensures
            ends.0 == old(self).image().first_logical(),
            ends.1 == old(self).image().next_logical(),
            final(self).wf(),
            final(self).image() == old(self).image(),
            final(self).memory() == old(self).memory(),
            final(self).free_list() == old(self).free_list(),
            final(self).linked() == old(self).linked(),
            final(self).holds_as(old(self), None),
    {
        proof {
            reveal(crate::upkeep::steady);
        }
        proof {
            lemma_header_readable(self.image(), 16);
            lemma_header_readable(self.image(), 24);
        }
        let logical_first_offset = self.tx.get_num(
            &mut self.disk,
            crate::layout::FIRST_VALUE_LOGICAL_OFFSET,
        );
        let logical_last_offset = self.tx.get_num(
            &mut self.disk,
            crate::layout::NEXT_VALUE_LOGICAL_OFFSET,
        );
        proof {
            old(self).lemma_linked_same(self, None);
        }
        (logical_first_offset, logical_last_offset)
    }

    /// Tells whether the log has room for the record of a value of `value_len` bytes:
    /// whether a value of that length may be stored.
    #[verifier::spinoff_prover]
    pub fn has_room(&mut self, value_len: usize) -> (room: bool)
        requires
            old(self).wf(),
        ensures
            room == (old(self).image().next_logical() + slots_for(record_len(value_len as nat))
                * 128 <= VALUE_LIMIT - VALUE_SIZE),
            final(self).wf(),
            final(self).image() == old(self).image(),
            final(self).memory() == old(self).memory(),
            final(self).free_list() == old(self).free_list(),
            final(self).linked() == old(self).linked(),
            final(self).holds_as(old(self), None),
    {
        let (_, next) = self.stats();
        if value_len as u64 > VALUE_LIMIT {
            return false;
        }
        let slots = (value_len as u64 + RECORD_HEADER + VALUE_SIZE - 1) / VALUE_SIZE;
        slots * VALUE_SIZE <= VALUE_LIMIT - VALUE_SIZE - next
    }

    /// Looks up the value stored under `key`.
    #[verifier::spinoff_prover]
    pub fn get(&mut self, key: Vec<u8>) -> (value: Option<Vec<u8>>)
        requires
            old(self).wf(),
        ensures
            match old(self).stored(key_hash(old(self).memory().salt@, key@)) {
                Some(bytes) => value is Some && value->0@ == bytes,
                None => value is None,
            },
            final(self).wf(),
            final(self).image() == old(self).image(),
            final(self).memory() == old(self).memory(),
            final(self).free_list() == old(self).free_list(),
            final(self).linked() == old(self).linked(),
            final(self).holds_as(old(self), None),
    {
        proof {
            reveal(HashTable::stored);
            reveal(HashTable::linked_but);
        }
        let hash = self.get_hash(&key);
        let (_, held) = self.seek(hash);
        let value = if held == NO_VALUE {
            None
        } else {
            self.read_record(held - 1)
        };
        proof {
            old(self).lemma_linked_same(self, None);
        }
        value
    }

    /// Reads the value of the record that starts at the logical offset `start`, if a
    /// record can be read there.
    #[verifier::spinoff_prover]
    pub fn read_record(&mut self, start: u64) -> (value: Option<Vec<u8>>)
        requires
            old(self).wf(),
        ensures
            match value {
                Some(bytes) => old(self).image().record_ok(old(self).memory().values, start)
                    && bytes@ == old(self).image().payload_at(old(self).memory().values, start),
                None => !old(self).image().record_ok(old(self).memory().values, start),
            },
            final(self).wf(),
            final(self).image() == old(self).image(),
            final(self).memory() == old(self).memory(),
            final(self).free_list() == old(self).free_list(),
    {
        let ghost image = self.image();
        let ghost values = self.values_mapping@;
        let (logical_first_offset, logical_next_offset) = self.stats();
        if start < logical_first_offset || start >= logical_next_offset || start % VALUE_SIZE
            != 0 {
            return None;
        }
        proof {
            crate::logshape::lemma_span_floor_monotone(
                logical_first_offset,
                start,
                crate::layout::VALUE_SPAN,
            );
        }
        let first_value = self.get_value(start);
        let len = record_length(&first_value);
        if len < RECORD_HEADER || len > logical_next_offset - start {
            return None;
        }
        let mut data: Vec<u8> = vstd::slice::slice_to_vec(first_value.as_slice());
        let mut offset = start;
        let mut remaining = len.saturating_sub(VALUE_SIZE);
        let mut read: u64 = 1;
        proof {
            assert(image.slots_from(values, start, 0) =~= Seq::<u8>::empty());
            assert(image.slots_from(values, start, 1) =~= image.value_at(values, start));
        }
        while remaining > 0
            invariant
                self.wf(),
                self.image() == image,
                image == old(self).image(),
                values == old(self).memory().values,
                self.memory() == old(self).memory(),
                self.free_list() == old(self).free_list(),
                logical_first_offset == image.first_logical(),
                logical_next_offset == image.next_logical(),
                logical_first_offset <= start,
                start % 128 == 0,
                logical_next_offset % 128 == 0,
                len <= logical_next_offset - start,
                1 <= read,
                len == image.record_length_at(values, start),
                len >= RECORD_HEADER,
                len > 128 * (read - 1),
                offset == start + 128 * (read - 1),
                remaining == if len > 128 * read {
                    len - 128 * read
                } else {
                    0
                },
                data@ == image.slots_from(values, start, read as nat),
                data@.len() == 128 * read,
            decreases remaining,
        {
            offset += VALUE_SIZE;
            proof {
                crate::logshape::lemma_span_floor_monotone(
                    logical_first_offset,
                    offset,
                    crate::layout::VALUE_SPAN,
                );
            }
            let next_value = self.get_value(offset);
            data.extend_from_slice(next_value.as_slice());
            remaining = remaining.saturating_sub(VALUE_SIZE);
            read += 1;
            proof {
                assert(data@ =~= image.slots_from(values, start, (read - 1) as nat)
                    + image.value_at(values, offset));
            }
        }
        proof {
            assert(read == slots_for(len as nat));
            assert(image.record_ok(values, start));
            assert(data@ == image.slots_from(values, start, slots_for(len as nat)));
            assert(start + 0 == start);
            assert(RECORD_HEADER + (len - RECORD_HEADER) == len);
        }
        let total = data.len();
        assert(len <= total);
        Some(copy_range(&data, RECORD_HEADER as usize, (len - RECORD_HEADER) as usize))
    }
}

impl HashTable {
    /// Appends a framed record to the value log, slot by slot. Returns the logical
    /// offset of its first slot. Each slot costs two units of compaction credit.
    #[verifier::spinoff_prover]
    pub fn append_record(&mut self, record: &Vec<u8>) -> (start: u64)
        requires
            old(self).wf(),
            record@.len() >= VALUE_SIZE,
            record@.len() % (VALUE_SIZE as nat) == 0,
            old(self).image().next_logical() + record@.len() <= VALUE_LIMIT - VALUE_SIZE,
        ensures
            final(self).wf(),
            start == old(self).image().next_logical(),
            final(self).image().next_logical() == start + record@.len(),
            final(self).image().first_logical() == old(self).image().first_logical(),
            final(self).memory().ht == old(self).memory().ht,
            final(self).memory().salt == old(self).memory().salt,
            final(self).memory().writes_since_resize == old(self).memory().writes_since_resize,
            final(self).memory().del_balance == old(self).memory().del_balance - 2 * (
            record@.len() / 128),
            final(self).image().value_at(final(self).memory().values, start) == record@.subrange(
                0,
                128,
            ),
            final(self).image().slots_from(
                final(self).memory().values,
                start,
                record@.len() / 128,
            ) == record@,
            forall|i: int|
                0 <= i < record@.len() / 128 ==> final(self).image().is_live(
                    final(self).memory().delmap,
                    #[trigger] ((start + 128 * i) as u64),
                ),
            slots_kept(
                old(self).image(),
                old(self).memory().values,
                final(self).image(),
                final(self).memory().values,
                old(self).image().first_logical(),
                start,
            ),
            marks_kept(
                old(self).image(),
                old(self).memory().delmap,
                final(self).image(),
                final(self).memory().delmap,
                old(self).image().first_logical(),
                start,
            ),
            crate::indexshape::index_kept(
                old(self).image(),
                final(self).image(),
                old(self).memory().ht,
            ),
    {
        let ghost orig = self.image();
        let ghost values0 = self.values_mapping@;
        let ghost delmap0 = self.delmap_mapping@;
        let ghost first = orig.first_logical();
        let count = record.len() / 128;
        let first_slot = to_slot(&copy_range(record, 0, 128));
        let start = self.write_value(first_slot);
        self.del_balance -= 2;
        proof {
            assert(self.image().slots_from(self.values_mapping@, start, 0) =~= Seq::<u8>::empty());
            assert(self.image().slots_from(self.values_mapping@, start, 1) =~= record@.subrange(
                0,
                128,
            ));
            assert forall|j: int| 0 <= j < 1 implies self.image().is_live(
                self.delmap_mapping@,
                #[trigger] ((start + 128 * j) as u64),
            ) by {}
        }
        let mut i: usize = 1;
        while i < count
            invariant
                1 <= i <= count,
                count == record@.len() / 128,
                record@.len() <= usize::MAX,
                record@.len() % 128 == 0,
                self.wf(),
                start == old(self).image().next_logical(),
                first == old(self).image().first_logical(),
                first <= start,
                start % 128 == 0,
                start + record@.len() <= VALUE_LIMIT - VALUE_SIZE,
                self.image().next_logical() == start + 128 * i,
                self.image().first_logical() == old(self).image().first_logical(),
                self.memory().ht == old(self).memory().ht,
                self.memory().salt == old(self).memory().salt,
                self.memory().writes_since_resize == old(self).memory().writes_since_resize,
                self.memory().del_balance == old(self).memory().del_balance - 2 * i,
                orig == old(self).image(),
                values0 == old(self).memory().values,
                delmap0 == old(self).memory().delmap,
                self.image().value_at(self.memory().values, start) == record@.subrange(0, 128),
                self.image().slots_from(self.memory().values, start, i as nat) == record@.subrange(
                    0,
                    128 * i,
                ),
                forall|j: int|
                    0 <= j < i ==> self.image().is_live(
                        self.memory().delmap,
                        #[trigger] ((start + 128 * j) as u64),
                    ),
                slots_kept(orig, values0, self.image(), self.memory().values, first, start),
                marks_kept(orig, delmap0, self.image(), self.memory().delmap, first, start),
                crate::indexshape::index_kept(orig, self.image(), self.memory().ht),
            decreases count - i,
        {
            assert(i * 128 + 128 <= record@.len());
            let slot = to_slot(&copy_range(record, i * 128, 128));
            let ghost before = self.image();
            let ghost values1 = self.values_mapping@;
            let ghost delmap1 = self.delmap_mapping@;
            let ghost cur = (start + 128 * i) as u64;
            let _ = self.write_value(slot);
            self.del_balance -= 2;
            proof {
                let after = self.image();
                let values2 = self.values_mapping@;
                let delmap2 = self.delmap_mapping@;
                crate::records::lemma_run_kept(
                    before,
                    values1,
                    after,
                    values2,
                    first,
                    cur,
                    start,
                    i as nat,
                );
                crate::logframe::lemma_slot_between(start, first, cur);
                assert(after.value_at(values2, start) == before.value_at(values1, start));
                assert(after.slots_from(values2, start, (i + 1) as nat) =~= record@.subrange(
                    0,
                    128 * (i + 1),
                ));
                assert forall|j: int| 0 <= j < i + 1 implies after.is_live(
                    delmap2,
                    #[trigger] ((start + 128 * j) as u64),
                ) by {
                    if j < i {
                        let at = (start + 128 * j) as u64;
                        crate::logframe::lemma_slot_between(at, first, cur);
                        assert(before.is_live(delmap1, at));
                    }
                }
                crate::logframe::lemma_slots_kept_shorter(
                    before,
                    values1,
                    after,
                    values2,
                    first,
                    cur,
                    start,
                );
                crate::logframe::lemma_marks_kept_within(
                    before,
                    delmap1,
                    after,
                    delmap2,
                    first,
                    cur,
                    first,
                    start,
                    u64::MAX,
                );
                crate::logframe::lemma_slots_kept_twice(
                    orig,
                    values0,
                    before,
                    values1,
                    after,
                    values2,
                    first,
                    start,
                );
                crate::logframe::lemma_marks_kept_twice(
                    orig,
                    delmap0,
                    before,
                    delmap1,
                    after,
                    delmap2,
                    first,
                    start,
                );
            }
            i += 1;
        }
        proof {
            assert(record@.subrange(0, 128 * count) =~= record@);
        }
        start
    }

    /// Stores `value` under `key`. A value that the key held before is deleted, and
    /// the log is compacted as far as the credit for compaction reaches.
    #[verifier::spinoff_prover]
    pub fn set(&mut self, key: Vec<u8>, value: Vec<u8>)
        requires
            old(self).wf(),
            old(self).rested(),
            old(self).image().next_logical() + slots_for(record_len(value@.len())) * 128
                <= VALUE_LIMIT - VALUE_SIZE,
        ensures
            final(self).wf(),
            final(self).rested(),
            final(self).memory().salt == old(self).memory().salt,
            old(self).image().lookup(
                old(self).memory().ht,
                key_hash(old(self).memory().salt@, key@),
            ) == NO_VALUE ==> crate::steps::written(
                old(self).state(),
                final(self).state(),
                key_hash(old(self).memory().salt@, key@),
                value@,
            ),
            old(self).image().lookup(
                old(self).memory().ht,
                key_hash(old(self).memory().salt@, key@),
            ) != NO_VALUE ==> crate::steps::overwritten(
                old(self).state(),
                final(self).state(),
                key_hash(old(self).memory().salt@, key@),
                value@,
                (old(self).image().lookup(
                    old(self).memory().ht,
                    key_hash(old(self).memory().salt@, key@),
                ) - 1) as u64,
            ),
            old(self).cheap_to_overwrite(key_hash(old(self).memory().salt@, key@), value@) ==> {
                &&& final(self).image().first_logical() == old(self).image().first_logical()
                &&& final(self).image().next_logical() == old(self).image().next_logical() + 128
                    * slots_for(record_len(value@.len()))
                &&& final(self).memory().del_balance == old(self).credit_after_overwrite(
                    key_hash(old(self).memory().salt@, key@),
                    value@,
                )
                &&& final(self).image().lookup(
                    final(self).memory().ht,
                    key_hash(old(self).memory().salt@, key@),
                ) == old(self).image().next_logical() + 1
            },
            old(self).linked() ==> {
                &&& final(self).linked()
                &&& final(self).stored(key_hash(old(self).memory().salt@, key@)) == Some(value@)
                &&& final(self).holds_as(
                    old(self),
                    Some(key_hash(old(self).memory().salt@, key@)),
                )
            },
            old(self).image().lookup(
                old(self).memory().ht,
                key_hash(old(self).memory().salt@, key@),
            ) == NO_VALUE ==> {
                &&& final(self).stored(key_hash(old(self).memory().salt@, key@)) == Some(value@)
                &&& forall|other: Seq<u8>|
                    other != key_hash(old(self).memory().salt@, key@) && old(self).stored(
                        other,
                    ) is Some ==> #[trigger] final(self).stored(other) == old(self).stored(other)
                &&& final(self).image().first_logical() == old(self).image().first_logical()
                &&& final(self).image().next_logical() == old(self).image().next_logical()
                    + slots_for(record_len(value@.len())) * 128
                &&& final(self).memory().del_balance == old(self).memory().del_balance - 2
                    * slots_for(record_len(value@.len()))
            },
    {
        proof {
            reveal(HashTable::stored);
            reveal(HashTable::linked_but);
            reveal(HashTable::linked_at);
        }
        let ghost orig = self.image();
        let ghost ht0 = self.ht_mapping@;
        let ghost values0 = self.values_mapping@;
        let ghost delmap0 = self.delmap_mapping@;
        let ghost first = orig.first_logical();
        let ghost end = orig.next_logical();
        let ghost linked = old(self).linked();
        let hash = self.get_hash(&key);
        let full_value = frame_record(&hash, &value);
        let offset = self.append_record(&full_value);
        let ghost appended = self.image();
        let ghost appended_state = self.state();
        let ghost values1 = self.values_mapping@;
        let ghost delmap1 = self.delmap_mapping@;
        let ghost count = slots_for(record_len(value@.len()));
        proof {
            crate::upkeep::lemma_steady_cells(orig, old(self).free_list(), ht0, values0, delmap0);
            crate::indexlaws::lemma_kept_sound(orig, appended, ht0);
            crate::records::lemma_framed_parts(hash@, value@);
            assert(appended.record_slots(values1, offset) == count);
            assert(appended.payload_at(values1, offset) == value@);
            assert(appended.hash_at(values1, offset) == hash@);
            assert(appended.record_live(values1, delmap1, offset));
        }
        let held = self.ht_set_with_hash(hash, offset + 1);
        let ghost indexed = *self;
        proof {
            let last = self.image();
            let ht1 = self.ht_mapping@;
            crate::logview::lemma_kept_log(
                appended,
                last,
                values1,
                delmap1,
                first,
                appended.next_logical(),
                appended.next_value_physical(),
                appended.next_delmap_physical(),
            );
            crate::logframe::lemma_slot_between(offset, first, appended.next_logical());
            crate::records::lemma_run_kept(
                appended,
                values1,
                last,
                values1,
                first,
                appended.next_logical(),
                offset,
                count,
            );
            crate::records::lemma_fetch_framed(last, ht1, values1, hash@, value@, offset);
            assert forall|i: int| 0 <= i < count implies appended.is_live(
                delmap1,
                #[trigger] slot_of(offset, i),
            ) by {
                assert(appended.is_live(delmap1, (offset + 128 * i) as u64));
            }
            crate::steps::lemma_written(
                old(self).state(),
                appended_state,
                self.state(),
                hash@,
                value@,
            );
            if linked {
                let recs = choose|recs: Seq<u64>|
                    #[trigger] orig.linked_but(ht0, values0, delmap0, recs, None);
                crate::linked::lemma_linked_append(
                    orig,
                    ht0,
                    values0,
                    delmap0,
                    appended,
                    values1,
                    delmap1,
                    recs,
                    None,
                );
                let more = recs.push(offset);
                assert(more[recs.len() as int] == offset);
                assert(appended.points(values1, delmap1, more, hash@, offset));
                crate::linked::lemma_linked_set(
                    appended,
                    ht0,
                    values1,
                    delmap1,
                    last,
                    ht1,
                    more,
                    None,
                    hash@,
                    offset,
                );
                crate::linked::lemma_linked_kept(
                    orig,
                    ht0,
                    values0,
                    delmap0,
                    orig,
                    ht0,
                    values0,
                    delmap0,
                    recs,
                    None,
                );
                assert(indexed.linked_but(None));
                assert forall|other: Seq<u8>| other != hash@ implies #[trigger] indexed.stored(
                    other,
                ) == old(self).stored(other) by {
                    assert(last.fetch(ht1, values1, other) == appended.fetch(ht0, values1, other));
                    crate::linked::lemma_appended_fetch(
                        orig,
                        ht0,
                        values0,
                        delmap0,
                        appended,
                        values1,
                        recs,
                        other,
                    );
                }
                if held is Some {
                    let gone = (held->0 - 1) as u64;
                    assert(orig.points(values0, delmap0, recs, hash@, gone));
                    let i = choose|i: int| 0 <= i < recs.len() && recs[i] == gone;
                    assert(more[i] == gone);
                    assert(indexed.linked_at(None, gone)) by {
                        assert(last.linked_but(ht1, values1, delmap1, more, None) && more.contains(
                            gone,
                        ));
                    }
                    assert forall|other: Seq<u8>| #[trigger]
                        last.lookup(ht1, other) == gone + 1 implies None::<Seq<u8>> == Some(
                        other,
                    ) by {
                        assert(last.points(values1, delmap1, more, other, gone));
                        crate::linked::lemma_tiles_order(
                            orig,
                            values0,
                            recs,
                            first,
                            end,
                            i,
                            i,
                        );
                        crate::logframe::lemma_slot_between(gone, first, end);
                        crate::logframe::lemma_slot_between(gone, first, appended.next_logical());
                    }
                }
            }
        }
        match held {
            Some(old_offset) => {
                self.delete_at_offset(old_offset - 1, Ghost(None), Ghost(None));
                proof {
                    let gone = (old_offset - 1) as u64;
                    assert(crate::steps::written(
                        old(self).state(),
                        indexed.state(),
                        hash@,
                        value@,
                    ) && crate::steps::deleted_at(indexed.state(), self.state(), gone));
                    if old(self).cheap_to_overwrite(hash@, value@) {
                        crate::steps::lemma_overwritten_cheap(
                            old(self).state(),
                            self.state(),
                            hash@,
                            value@,
                            gone,
                        );
                    }
                }
            },
            None => {
                proof {
                    let last = self.image();
                    let ht1 = self.ht_mapping@;
                    crate::logframe::lemma_slots_kept_shorter(
                        appended,
                        values1,
                        last,
                        values1,
                        first,
                        appended.next_logical(),
                        end,
                    );
                    crate::logframe::lemma_slots_kept_twice(
                        orig,
                        values0,
                        appended,
                        values1,
                        last,
                        values1,
                        first,
                        end,
                    );
                    assert forall|other: Seq<u8>|
                        other != hash@ && old(self).stored(other) is Some implies #[trigger] self.stored(
                        other,
                    ) == old(self).stored(other) by {
                        crate::records::lemma_fetch_kept(
                            orig,
                            ht0,
                            values0,
                            last,
                            ht1,
                            values1,
                            other,
                        );
                    }
                }
            },
        }
    }

    /// Deletes the value stored under `key`, if there is one, and compacts the log
    /// as far as the credit for compaction reaches.
    #[verifier::spinoff_prover]
    pub fn delete(&mut self, key: Vec<u8>)
        requires
            old(self).wf(),
            old(self).rested(),
        ensures
            final(self).wf(),
            final(self).rested(),
            final(self).memory().salt == old(self).memory().salt,
            old(self).image().lookup(
                old(self).memory().ht,
                key_hash(old(self).memory().salt@, key@),
            ) == NO_VALUE ==> final(self).image() == old(self).image() && final(self).memory()
                == old(self).memory(),
            final(self).stored(key_hash(old(self).memory().salt@, key@)) is None,
            old(self).image().lookup(
                old(self).memory().ht,
                key_hash(old(self).memory().salt@, key@),
            ) != NO_VALUE ==> crate::steps::deleted(
                old(self).state(),
                final(self).state(),
                key_hash(old(self).memory().salt@, key@),
                (old(self).image().lookup(
                    old(self).memory().ht,
                    key_hash(old(self).memory().salt@, key@),
                ) - 1) as u64,
            ),
            old(self).linked() ==> final(self).linked() && final(self).holds_as(
                old(self),
                Some(key_hash(old(self).memory().salt@, key@)),
            ),
    {
        proof {
            reveal(HashTable::stored);
            reveal(HashTable::linked_but);
            reveal(HashTable::linked_at);
        }
        let ghost linked = old(self).linked();
        let hash = self.get_hash(&key);
        let (_, held) = self.seek(hash);
        if held != NO_VALUE {
            proof {
                if linked {
                    self.lemma_delete_ready(hash@);
                }
            }
            self.delete_at_offset(held - 1, Ghost(None), Ghost(Some(hash@)));
            let ghost compacted = *self;
            self.ht_delete_with_hash(hash);
            proof {
                crate::upkeep::lemma_steady_cells(
                    compacted.image(),
                    compacted.free_list(),
                    compacted.ht_mapping@,
                    compacted.values_mapping@,
                    compacted.delmap_mapping@,
                );
                crate::logview::lemma_kept_log(
                    compacted.image(),
                    self.image(),
                    compacted.values_mapping@,
                    compacted.delmap_mapping@,
                    compacted.image().first_logical(),
                    compacted.image().next_logical(),
                    compacted.image().next_value_physical(),
                    compacted.image().next_delmap_physical(),
                );
                assert(crate::steps::deleted_at(
                    old(self).state(),
                    compacted.state(),
                    (held - 1) as u64,
                ) && crate::steps::unindexed(compacted.state(), self.state(), hash@));
                if linked {
                    compacted.lemma_delete_done(self, hash@);
                }
            }
        }
    }

    /// In a linked engine the record to which the index points for a hash is a
    /// record of the log, and the index points to it for no other hash.
    pub proof fn lemma_delete_ready(&self, hash: Seq<u8>)
        requires
            self.linked(),
            self.image().lookup(self.memory().ht, hash) != NO_VALUE,
        ensures
            self.linked_at(None, (self.image().lookup(self.memory().ht, hash) - 1) as u64),
            forall|other: Seq<u8>|
                #[trigger] self.image().lookup(self.memory().ht, other) == self.image().lookup(
                    self.memory().ht,
                    hash,
                ) ==> Some(hash) == Some(other),
    {
        reveal(HashTable::stored);
        reveal(HashTable::linked_but);
        reveal(HashTable::linked_at);
        let image = self.image();
        let ht = self.memory().ht;
        let values = self.memory().values;
        let delmap = self.memory().delmap;
        let recs = choose|recs: Seq<u64>| #[trigger] image.linked_but(ht, values, delmap, recs, None);
        let gone = (image.lookup(ht, hash) - 1) as u64;
        assert(image.points(values, delmap, recs, hash, gone));
        assert(image.linked_but(ht, values, delmap, recs, None) && recs.contains(gone));
        assert forall|other: Seq<u8>| #[trigger]
            image.lookup(ht, other) == image.lookup(ht, hash) implies Some(hash) == Some(other) by {
            assert(image.points(values, delmap, recs, other, gone));
        }
    }

    /// Taking out of the index the hash that it holds without a live record leaves
    /// the engine linked, and holding for every other hash what it held.
    pub proof fn lemma_delete_done(&self, after: &HashTable, hash: Seq<u8>)
        requires
            self.wf(),
            self.linked_but(Some(hash)),
            after.memory().ht == self.memory().ht,
            after.memory().values == self.memory().values,
            after.memory().delmap == self.memory().delmap,
            same_log_header(self.image(), after.image()),
            crate::logview::log_kept(
                self.image(),
                after.image(),
                self.memory().values,
                self.memory().delmap,
            ),
            crate::indexlaws::index_without(self.image(), after.image(), self.memory().ht, hash),
        ensures
            after.linked(),
            after.holds_as(self, Some(hash)),
            after.stored(hash) is None,
    {
        reveal(HashTable::stored);
        reveal(HashTable::linked_but);
        reveal(HashTable::linked_at);
        let before = self.image();
        let ht = self.memory().ht;
        let values = self.memory().values;
        let delmap = self.memory().delmap;
        let recs = choose|recs: Seq<u64>|
            #[trigger] before.linked_but(ht, values, delmap, recs, Some(hash));
        crate::logview::lemma_kept_log(
            before,
            after.image(),
            values,
            delmap,
            before.first_logical(),
            before.next_logical(),
            before.next_value_physical(),
            before.next_delmap_physical(),
        );
        crate::linked::lemma_linked_unset(
            before,
            ht,
            values,
            delmap,
            after.image(),
            recs,
            Some(hash),
            hash,
        );
        assert(after.image().linked_but(
            after.memory().ht,
            after.memory().values,
            after.memory().delmap,
            recs,
            None,
        ));
    }

    /// Marks the slots of the record that starts at the logical offset `offset` as
    /// deleted, which earns four units of compaction credit for each, and compacts
    /// the log while credit is left. The index may, from then on, hold the hash
    /// `loose` without a live record.
    #[verifier::spinoff_prover]
    pub(crate) fn delete_at_offset(
        &mut self,
        offset: u64,
        Ghost(except): Ghost<Option<Seq<u8>>>,
        Ghost(loose): Ghost<Option<Seq<u8>>>,
    )
        requires
            old(self).wf(),
            old(self).rested(),
        ensures
            crate::steps::deleted_at(old(self).state(), final(self).state(), offset),
            final(self).wf(),
            final(self).rested(),
            final(self).memory().salt == old(self).memory().salt,
            old(self).droppable(except, loose, offset) ==> final(self).linked_but(loose)
                && final(self).holds_as(old(self), loose),
            old(self).image().record_ok(old(self).memory().values, offset) ==> crate::linked::dropped(
                old(self).image(),
                old(self).memory().values,
                old(self).memory().delmap,
                final(self).image(),
                final(self).memory().values,
                final(self).memory().delmap,
                offset,
            ),
            !old(self).image().record_ok(old(self).memory().values, offset)
                ==> crate::moving::compacted(
                old(self).image(),
                old(self).memory().values,
                old(self).memory().delmap,
                final(self).image(),
                final(self).memory().values,
                final(self).memory().delmap,
            ),
    {
        proof {
            reveal(HashTable::stored);
            reveal(HashTable::linked_but);
            reveal(HashTable::linked_at);
        }
        let ghost orig = self.image();
        let ghost ht = self.ht_mapping@;
        let ghost values = self.values_mapping@;
        let ghost delmap = self.delmap_mapping@;
        let ghost fits = old(self).droppable(except, loose, offset);
        proof {
            crate::upkeep::lemma_steady_cells(orig, self.free_list(), ht, values, delmap);
        }
        self.mark_record(offset);
        let ghost marked = *self;
        proof {
            if fits {
                let recs = choose|recs: Seq<u64>|
                    #[trigger] orig.linked_but(ht, values, delmap, recs, except) && recs.contains(
                        offset,
                    );
                let i = choose|i: int| 0 <= i < recs.len() && recs[i] == offset;
                crate::linked::lemma_tiles_order(
                    orig,
                    values,
                    recs,
                    orig.first_logical(),
                    orig.next_logical(),
                    i,
                    i,
                );
                assert(RECORD_HEADER <= orig.record_length_at(values, recs[i]));
                assert(orig.record_ok(values, offset));
                crate::indexlaws::lemma_kept_sound(orig, self.image(), ht);
                crate::linked::lemma_linked_mark(
                    orig,
                    ht,
                    values,
                    delmap,
                    self.image(),
                    recs,
                    except,
                    loose,
                    offset,
                );
                assert(marked.linked_but(loose));
            }
        }
        self.compact(Ghost(loose));
        proof {
            assert(crate::steps::record_marked(old(self).state(), marked.state(), offset)
                && crate::steps::compacts(marked.state(), self.state()));
            if orig.record_ok(values, offset) {
                crate::linked::lemma_dropped(
                    orig,
                    values,
                    delmap,
                    marked.image(),
                    self.image(),
                    self.values_mapping@,
                    self.delmap_mapping@,
                    offset,
                );
            }
        }
    }

    /// Marks the slots of the record that starts at the logical offset `offset` as
    /// deleted, and earns four units of compaction credit for each. Does nothing
    /// where no record can be read at the offset.
    #[verifier::spinoff_prover]
    pub fn mark_record(&mut self, offset: u64)
        requires
            old(self).wf(),
            old(self).rested(),
        ensures
            crate::steps::record_marked(old(self).state(), final(self).state(), offset),
            final(self).wf(),
            same_log_header(old(self).image(), final(self).image()),
            final(self).memory().ht == old(self).memory().ht,
            final(self).memory().values == old(self).memory().values,
            final(self).memory().delmap == old(self).memory().delmap,
            final(self).memory().salt == old(self).memory().salt,
            final(self).memory().writes_since_resize == old(self).memory().writes_since_resize,
            final(self).free_list() == old(self).free_list(),
            final(self).memory().del_balance
                == old(self).memory().del_balance
                    + if old(self).image().record_ok(old(self).memory().values, offset) {
                4 * slots_for(
                    old(self).image().record_length_at(old(self).memory().values, offset) as nat,
                )
            } else {
                0
            },
            crate::indexshape::index_kept(
                old(self).image(),
                final(self).image(),
                old(self).memory().ht,
            ),
            slots_kept(
                old(self).image(),
                old(self).memory().values,
                final(self).image(),
                final(self).memory().values,
                old(self).image().first_logical(),
                old(self).image().next_logical(),
            ),
            !old(self).image().record_ok(old(self).memory().values, offset)
                ==> final(self).image() == old(self).image(),
            old(self).image().record_ok(old(self).memory().values, offset) ==> {
                &&& final(self).image().record_dead(
                    final(self).memory().values,
                    final(self).memory().delmap,
                    offset,
                )
                &&& marks_kept_outside(
                    old(self).image(),
                    old(self).memory().delmap,
                    final(self).image(),
                    final(self).memory().delmap,
                    old(self).image().first_logical(),
                    old(self).image().next_logical(),
                    offset as int,
                    old(self).image().record_end(old(self).memory().values, offset),
                )
            },
    {
        let ghost orig = self.image();
        let ghost values = self.values_mapping@;
        let ghost delmap = self.delmap_mapping@;
        let ghost ht = self.ht_mapping@;
        proof {
            crate::indexshape::lemma_same_index_kept(orig, orig, ht);
            reveal(crate::logframe::slot_between);
        }
        let (logical_first_offset, logical_next_offset) = self.stats();
        if offset < logical_first_offset || offset >= logical_next_offset || offset % VALUE_SIZE
            != 0 {
            return ;
        }
        proof {
            crate::logshape::lemma_span_floor_monotone(
                logical_first_offset,
                offset,
                crate::layout::VALUE_SPAN,
            );
        }
        let first_value = self.get_value(offset);
        let len = record_length(&first_value);
        if len < RECORD_HEADER || len > logical_next_offset - offset {
            return ;
        }
        let mut remaining = len;
        let mut at = offset;
        let mut marked: u64 = 0;
        while remaining > 0
            invariant
                self.wf(),
                same_log_header(old(self).image(), self.image()),
                self.memory().ht == old(self).memory().ht,
                self.memory().values == old(self).memory().values,
                self.memory().delmap == old(self).memory().delmap,
                self.memory().salt == old(self).memory().salt,
                self.memory().writes_since_resize == old(self).memory().writes_since_resize,
                self.free_list() == old(self).free_list(),
                logical_first_offset == old(self).image().first_logical(),
                logical_next_offset == old(self).image().next_logical(),
                logical_first_offset <= offset,
                offset % 128 == 0,
                logical_next_offset % 128 == 0,
                logical_next_offset <= VALUE_LIMIT,
                len <= logical_next_offset - offset,
                at == offset + 128 * marked,
                len > 0,
                marked > 0 ==> len > 128 * (marked - 1),
                remaining == if len > 128 * marked {
                    len - 128 * marked
                } else {
                    0
                },
                old(self).memory().del_balance <= 0,
                self.memory().del_balance == old(self).memory().del_balance + 4 * marked,
                128 * marked <= logical_next_offset - offset,
                logical_next_offset == self.image().next_logical(),
                orig == old(self).image(),
                values == old(self).memory().values,
                delmap == old(self).memory().delmap,
                ht == old(self).memory().ht,
                crate::indexshape::index_kept(orig, self.image(), ht),
                slots_kept(
                    orig,
                    values,
                    self.image(),
                    values,
                    logical_first_offset,
                    logical_next_offset,
                ),
                marks_kept_outside(
                    orig,
                    delmap,
                    self.image(),
                    delmap,
                    logical_first_offset,
                    logical_next_offset,
                    offset as int,
                    offset + 128 * marked,
                ),
                forall|i: int|
                    0 <= i < marked ==> !self.image().is_live(delmap, #[trigger] slot_of(offset, i)),
            decreases remaining,
        {
            proof {
                crate::logshape::lemma_span_floor_monotone(
                    logical_first_offset,
                    at,
                    crate::layout::DELMAP_SPAN,
                );
                crate::logshape::lemma_span_floor_monotone(
                    logical_first_offset,
                    logical_first_offset,
                    crate::layout::DELMAP_SPAN,
                );
            }
            let ghost before = self.image();
            self.delete_value(at);
            proof {
                let after = self.image();
                crate::logframe::lemma_slots_kept_twice(
                    orig,
                    values,
                    before,
                    values,
                    after,
                    values,
                    logical_first_offset,
                    logical_next_offset,
                );
                assert(slot_of(offset, marked as int) == at);
                crate::linked::lemma_mark_step(
                    orig,
                    before,
                    after,
                    delmap,
                    logical_first_offset,
                    logical_next_offset,
                    offset,
                    marked as int,
                );
            }
            at += VALUE_SIZE;
            remaining = remaining.saturating_sub(VALUE_SIZE);
            self.del_balance += 4;
            marked += 1;
        }
        proof {
            assert(marked == slots_for(len as nat));
            crate::logframe::lemma_slot_between(offset, logical_first_offset, logical_next_offset);
            assert(self.image().value_at(values, offset) == orig.value_at(values, offset));
            crate::upkeep::lemma_steady_cells(
                orig,
                self.free_list(),
                ht,
                values,
                delmap,
            );
            crate::indexlaws::lemma_kept_sound(orig, self.image(), ht);
        }
    }
}

impl HashTable {
    /// Lets the index point to the logical offset `new_offset` for `hash`, if it
    /// points to `old_offset` now.
    #[verifier::spinoff_prover]
    pub fn repoint(&mut self, hash: [u8; 26], old_offset: u64, new_offset: u64)
        requires
            old(self).wf(),
            old_offset < VALUE_LIMIT - 1,
            new_offset < VALUE_LIMIT - 1,
        ensures
            final(self).wf(),
            same_log_header(old(self).image(), final(self).image()),
            final(self).memory().values == old(self).memory().values,
            final(self).memory().delmap == old(self).memory().delmap,
            final(self).memory().salt == old(self).memory().salt,
            final(self).memory().del_balance == old(self).memory().del_balance,
            old(self).image().lookup(old(self).memory().ht, hash@) != old_offset + 1
                ==> final(self).image() == old(self).image()
                    && final(self).memory() == old(self).memory(),
            crate::logview::log_kept(
                old(self).image(),
                final(self).image(),
                old(self).memory().values,
                old(self).memory().delmap,
            ),
            crate::linked::repointed(
                old(self).image(),
                old(self).memory().ht,
                final(self).image(),
                final(self).memory().ht,
                hash@,
                old_offset,
                new_offset,
            ),
    {
        let (_, stored_offset) = self.seek(hash);
        if stored_offset == old_offset + 1 {
            let _ = self.ht_set_with_hash(hash, new_offset + 1);
        }
    }

    /// Compacts the log while credit for compaction is left: takes the record at the
    /// start of the log, appends its live slots to the end of the log, lets the
    /// index point to the new place, and moves the start of the log past the record.
    /// Each slot moved past costs one unit of credit. A record that is alone in the
    /// log stays where it is, and the credit is dropped.
    #[verifier::spinoff_prover]
    pub(crate) fn compact(&mut self, Ghost(except): Ghost<Option<Seq<u8>>>)
        requires
            old(self).wf(),
        ensures
            crate::steps::compacts(old(self).state(), final(self).state()),
            crate::moving::compacted(
                old(self).image(),
                old(self).memory().values,
                old(self).memory().delmap,
                final(self).image(),
                final(self).memory().values,
                final(self).memory().delmap,
            ),
            final(self).wf(),
            final(self).rested(),
            final(self).memory().salt == old(self).memory().salt,
            old(self).linked_but(except)
                ==> final(self).linked_but(except) && final(self).holds_as(old(self), except),
    {
        while self.del_balance > 0
            invariant
                forall|target: crate::steps::State|
                    #[trigger] crate::steps::compacts(self.state(), target)
                        ==> crate::steps::compacts(old(self).state(), target),
                crate::moving::compacted(
                    old(self).image(),
                    old(self).memory().values,
                    old(self).memory().delmap,
                    self.image(),
                    self.memory().values,
                    self.memory().delmap,
                ),
                self.wf(),
                self.memory().salt == old(self).memory().salt,
                old(self).linked_but(except) ==> self.linked_but(except) && self.holds_as(
                    old(self),
                    except,
                ),
            ensures
                self.del_balance <= 0,
            decreases
                    (if self.del_balance > 0 {
                        self.del_balance as int
                    } else {
                        0
                    }),
        {
            let ghost earlier = *self;
            let moved = self.compact_record(Ghost(except));
            proof {
                crate::moving::lemma_compacted_twice(
                    old(self).image(),
                    old(self).values_mapping@,
                    old(self).delmap_mapping@,
                    earlier.image(),
                    earlier.values_mapping@,
                    earlier.delmap_mapping@,
                    self.image(),
                    self.values_mapping@,
                    self.delmap_mapping@,
                );
            }
            proof {
                if moved {
                    assert forall|target: crate::steps::State|
                        #[trigger] crate::steps::compacts(
                            self.state(),
                            target,
                        ) implies crate::steps::compacts(old(self).state(), target) by {
                        crate::steps::lemma_compacts_first(earlier.state(), self.state(), target);
                    }
                }
            }
            if !moved {
                let ghost before = *self;
                self.del_balance = 0;
                proof {
                    before.lemma_linked_same(self, except);
                    assert(crate::steps::compacts(earlier.state(), self.state()));
                }
                break ;
            }
        }
        proof {
            assert(crate::steps::compacts(self.state(), self.state()));
        }
    }

    /// Moves the first slot of the record at the start of the log, of `count` slots
    /// and with the hash `hash`, to the end of the log if it is live, and lets the
    /// index point to the new place of the record.
    #[verifier::spinoff_prover]
    pub(crate) fn move_head(&mut self, hash: [u8; 26], Ghost(count): Ghost<int>)
        requires
            old(self).wf(),
            old(self).image().first_logical() < old(self).image().next_logical(),
            old(self).image().next_logical() + VALUE_SIZE <= VALUE_LIMIT - VALUE_SIZE,
            count >= 1,
            old(self).image().first_logical() + 128 * count <= old(self).image().next_logical(),
        ensures
            crate::moving::compacted(
                old(self).image(),
                old(self).memory().values,
                old(self).memory().delmap,
                final(self).image(),
                final(self).memory().values,
                final(self).memory().delmap,
            ),
            final(self).wf(),
            final(self).memory().salt == old(self).memory().salt,
            final(self).memory().del_balance == old(self).memory().del_balance,
            final(self).image().first_logical() == old(self).image().first_logical() + 128,
            old(self).image().next_logical() <= final(self).image().next_logical()
                <= old(self).image().next_logical() + 128,
            crate::moving::run_live(old(self).image(), old(self).memory().delmap, count) ==> {
                &&& crate::moving::moved_live(
                    old(self).image(),
                    old(self).memory().values,
                    old(self).memory().delmap,
                    final(self).image(),
                    final(self).memory().values,
                    final(self).memory().delmap,
                    1,
                )
                &&& crate::linked::repointed(
                    old(self).image(),
                    old(self).memory().ht,
                    final(self).image(),
                    final(self).memory().ht,
                    hash@,
                    old(self).image().first_logical(),
                    old(self).image().next_logical(),
                )
            },
            crate::moving::run_dead(old(self).image(), old(self).memory().delmap, count) ==> {
                &&& crate::moving::moved_dead(
                    old(self).image(),
                    old(self).memory().values,
                    old(self).memory().delmap,
                    final(self).image(),
                    final(self).memory().values,
                    final(self).memory().delmap,
                    1,
                )
                &&& final(self).memory().ht == old(self).memory().ht
                &&& forall|other: Seq<u8>|
                    #[trigger] final(self).image().lookup(final(self).memory().ht, other)
                        == old(self).image().lookup(old(self).memory().ht, other)
            },
    {
        let ghost orig = self.image();
        let ghost ht0 = self.ht_mapping@;
        let ghost values0 = self.values_mapping@;
        let ghost delmap0 = self.delmap_mapping@;
        let ghost live = crate::moving::run_live(orig, delmap0, count);
        let ghost dead = crate::moving::run_dead(orig, delmap0, count);
        proof {
            crate::moving::lemma_moved_none(orig, values0, delmap0);
            crate::upkeep::lemma_steady_cells(orig, self.free_list(), ht0, values0, delmap0);
            assert(slot_of(orig.first_logical(), 0) == orig.first_logical());
        }
        let ret = self.move_one_value();
        let ghost first_moved = self.image();
        let ghost values1 = self.values_mapping@;
        let ghost delmap1 = self.delmap_mapping@;
        proof {
            crate::indexlaws::lemma_kept_sound(orig, first_moved, ht0);
            crate::moving::lemma_compacted_one(
                orig,
                values0,
                delmap0,
                first_moved,
                values1,
                delmap1,
            );
            if live {
                assert(orig.is_live(delmap0, slot_of(orig.first_logical(), 0)));
                crate::moving::lemma_moved_live_step(
                    orig,
                    values0,
                    delmap0,
                    orig,
                    values0,
                    delmap0,
                    first_moved,
                    values1,
                    delmap1,
                    0,
                );
            }
            if dead {
                assert(!orig.is_live(delmap0, slot_of(orig.first_logical(), 0)));
                crate::moving::lemma_moved_dead_step(
                    orig,
                    values0,
                    delmap0,
                    orig,
                    values0,
                    delmap0,
                    first_moved,
                    values1,
                    delmap1,
                    0,
                );
            }
        }
        match ret {
            Some((old_offset, new_offset)) => {
                self.repoint(hash, old_offset, new_offset);
                proof {
                    crate::logview::lemma_kept_log(
                        first_moved,
                        self.image(),
                        values1,
                        delmap1,
                        first_moved.first_logical(),
                        first_moved.next_logical(),
                        first_moved.next_value_physical(),
                        first_moved.next_delmap_physical(),
                    );
                    crate::moving::lemma_moved_kept(
                        orig,
                        values0,
                        delmap0,
                        first_moved,
                        values1,
                        delmap1,
                        self.image(),
                        1,
                    );
                    crate::moving::lemma_compacted_kept(
                        first_moved,
                        values1,
                        delmap1,
                        self.image(),
                    );
                    crate::moving::lemma_compacted_twice(
                        orig,
                        values0,
                        delmap0,
                        first_moved,
                        values1,
                        delmap1,
                        self.image(),
                        values1,
                        delmap1,
                    );
                }
            },
            None => {},
        }
    }

    /// Moves the record at the start of the log to its end, as far as it is live,
    /// and spends one unit of compaction credit for each of its slots. Returns
    /// whether it did; it does not where the log holds no other record, or where the
    /// log has no room for the record.
    #[verifier::spinoff_prover]
    pub(crate) fn compact_record(&mut self, Ghost(except): Ghost<Option<Seq<u8>>>) -> (moved: bool)
        requires
            old(self).wf(),
        ensures
            moved ==> crate::steps::record_moved(old(self).state(), final(self).state()),
            crate::moving::compacted(
                old(self).image(),
                old(self).memory().values,
                old(self).memory().delmap,
                final(self).image(),
                final(self).memory().values,
                final(self).memory().delmap,
            ),
            final(self).wf(),
            final(self).memory().salt == old(self).memory().salt,
            moved == old(self).image().compactable(old(self).memory().values),
            !moved ==> final(self).image() == old(self).image() && final(self).memory()
                == old(self).memory(),
            moved ==> {
                &&& final(self).image().first_logical() == old(self).image().first_logical()
                    + 128 * old(self).image().head_slots(old(self).memory().values)
                &&& final(self).memory().del_balance == old(self).memory().del_balance
                    - old(self).image().head_slots(old(self).memory().values)
                &&& old(self).image().next_logical() <= final(self).image().next_logical()
                    <= old(self).image().next_logical() + 128 * old(self).image().head_slots(
                    old(self).memory().values,
                )
            },
            moved && crate::moving::run_live(
                old(self).image(),
                old(self).memory().delmap,
                old(self).image().head_slots(old(self).memory().values),
            ) ==> {
                &&& crate::moving::moved_live(
                    old(self).image(),
                    old(self).memory().values,
                    old(self).memory().delmap,
                    final(self).image(),
                    final(self).memory().values,
                    final(self).memory().delmap,
                    old(self).image().head_slots(old(self).memory().values),
                )
                &&& crate::linked::repointed(
                    old(self).image(),
                    old(self).memory().ht,
                    final(self).image(),
                    final(self).memory().ht,
                    old(self).image().hash_at(
                        old(self).memory().values,
                        old(self).image().first_logical(),
                    ),
                    old(self).image().first_logical(),
                    old(self).image().next_logical(),
                )
            },
            moved && crate::moving::run_dead(
                old(self).image(),
                old(self).memory().delmap,
                old(self).image().head_slots(old(self).memory().values),
            ) ==> {
                &&& crate::moving::moved_dead(
                    old(self).image(),
                    old(self).memory().values,
                    old(self).memory().delmap,
                    final(self).image(),
                    final(self).memory().values,
                    final(self).memory().delmap,
                    old(self).image().head_slots(old(self).memory().values),
                )
                &&& final(self).memory().ht == old(self).memory().ht
                &&& forall|other: Seq<u8>|
                    #[trigger] final(self).image().lookup(final(self).memory().ht, other)
                        == old(self).image().lookup(old(self).memory().ht, other)
            },
            old(self).linked_but(except)
                ==> final(self).linked_but(except) && final(self).holds_as(old(self), except),
    {
        proof {
            reveal(HashTable::stored);
            reveal(HashTable::linked_but);
        }
        let ghost orig = self.image();
        let ghost ht0 = self.ht_mapping@;
        let ghost values0 = self.values_mapping@;
        let ghost delmap0 = self.delmap_mapping@;
        let (logical_first_offset, logical_next_offset) = self.stats();
        if logical_first_offset >= logical_next_offset {
            return false;
        }
        proof {
            crate::logshape::lemma_span_floor_monotone(
                logical_first_offset,
                logical_first_offset,
                crate::layout::VALUE_SPAN,
            );
        }
        let first_value = self.get_value(logical_first_offset);
        let remaining = record_length(&first_value);
        if remaining > logical_next_offset - logical_first_offset {
            return false;
        }
        if logical_next_offset - logical_first_offset - remaining < VALUE_SIZE {
            // There is only one record; it stays where it is.
            return false;
        }
        if remaining + 2 * VALUE_SIZE > (VALUE_LIMIT - VALUE_SIZE) - logical_next_offset {
            return false;
        }
        let hash = record_hash(&first_value);
        let ghost count: int = if remaining == 0 {
            1
        } else {
            slots_for(remaining as nat) as int
        };
        self.move_head(hash, Ghost(count));
        self.del_balance -= 1;
        let ghost pointed = self.image();
        let ghost ht2 = self.ht_mapping@;
        let ghost values2 = self.values_mapping@;
        let ghost delmap2 = self.delmap_mapping@;
        proof {
            crate::upkeep::lemma_steady_cells(
                pointed,
                self.free_list(),
                ht2,
                self.values_mapping@,
                self.delmap_mapping@,
            );
        }
        self.move_rest(
            remaining.saturating_sub(VALUE_SIZE),
            Ghost(orig),
            Ghost(values0),
            Ghost(delmap0),
            Ghost(1),
            Ghost(count),
        );
        proof {
            let last = self.image();
            crate::indexlaws::lemma_kept_sound(pointed, last, ht2);
            crate::moving::lemma_compacted_twice(
                orig,
                values0,
                delmap0,
                pointed,
                values2,
                delmap2,
                last,
                self.values_mapping@,
                self.delmap_mapping@,
            );
            assert(count == orig.head_slots(values0));
            assert(hash@ == orig.hash_at(values0, logical_first_offset));
            assert(crate::moving::run_live(orig, delmap0, count) ==> crate::linked::repointed(
                orig,
                ht0,
                last,
                self.ht_mapping@,
                hash@,
                logical_first_offset,
                logical_next_offset,
            ));
            if old(self).linked_but(except) {
                let recs = choose|recs: Seq<u64>|
                    #[trigger] orig.linked_but(ht0, values0, delmap0, recs, except);
                assert(recs.len() > 0);
                assert(recs[0] == logical_first_offset);
                assert(RECORD_HEADER <= orig.record_length_at(values0, recs[0]));
                assert(orig.record_slots(values0, logical_first_offset) == count);
                crate::linked::lemma_record_compacted(
                    orig,
                    ht0,
                    values0,
                    delmap0,
                    last,
                    self.ht_mapping@,
                    self.values_mapping@,
                    self.delmap_mapping@,
                    recs,
                    except,
                );
            }
        }
        true
    }

    /// Moves the start of the log past the slots that hold the last `remaining`
    /// bytes of a record, and spends one unit of compaction credit for each. The
    /// slots are the ones from slot `done` on of the `count` slots with which the log
    /// `orig` started.
    #[verifier::spinoff_prover]
    pub(crate) fn move_rest(
        &mut self,
        remaining: u64,
        Ghost(orig): Ghost<Image>,
        Ghost(orig_values): Ghost<Map<u64, u64>>,
        Ghost(orig_delmap): Ghost<Map<u64, u64>>,
        Ghost(done): Ghost<int>,
        Ghost(count): Ghost<int>,
    )
        requires
            old(self).wf(),
            remaining > 0
                ==> old(self).image().first_logical()
                    + remaining <= old(self).image().next_logical(),
            old(self).image().next_logical() + remaining + VALUE_SIZE <= VALUE_LIMIT
                - VALUE_SIZE,
            0 <= done,
            done + slots_for(remaining as nat) == count,
            orig.first_logical() % VALUE_SIZE == 0,
            orig.next_logical() % VALUE_SIZE == 0,
            orig.first_logical() + 128 * count <= orig.next_logical(),
            crate::moving::run_live(orig, orig_delmap, count) ==> crate::moving::moved_live(
                orig,
                orig_values,
                orig_delmap,
                old(self).image(),
                old(self).memory().values,
                old(self).memory().delmap,
                done,
            ),
            crate::moving::run_dead(orig, orig_delmap, count) ==> crate::moving::moved_dead(
                orig,
                orig_values,
                orig_delmap,
                old(self).image(),
                old(self).memory().values,
                old(self).memory().delmap,
                done,
            ),
        ensures
            crate::moving::compacted(
                old(self).image(),
                old(self).memory().values,
                old(self).memory().delmap,
                final(self).image(),
                final(self).memory().values,
                final(self).memory().delmap,
            ),
            final(self).wf(),
            final(self).memory().salt == old(self).memory().salt,
            final(self).memory().ht == old(self).memory().ht,
            final(self).memory().del_balance == old(self).memory().del_balance - slots_for(
                remaining as nat,
            ),
            final(self).image().first_logical() == old(self).image().first_logical() + 128
                * slots_for(remaining as nat),
            old(self).image().next_logical() <= final(self).image().next_logical()
                <= old(self).image().next_logical() + 128 * slots_for(remaining as nat),
            crate::indexshape::index_kept(
                old(self).image(),
                final(self).image(),
                old(self).memory().ht,
            ),
            crate::moving::run_live(orig, orig_delmap, count) ==> crate::moving::moved_live(
                orig,
                orig_values,
                orig_delmap,
                final(self).image(),
                final(self).memory().values,
                final(self).memory().delmap,
                count,
            ),
            crate::moving::run_dead(orig, orig_delmap, count) ==> crate::moving::moved_dead(
                orig,
                orig_values,
                orig_delmap,
                final(self).image(),
                final(self).memory().values,
                final(self).memory().delmap,
                count,
            ),
    {
        let mut remaining = remaining;
        let ghost mut k = done;
        proof {
            crate::indexshape::lemma_same_index_kept(self.image(), self.image(), self.ht_mapping@);
            crate::moving::lemma_compacted_same(
                self.image(),
                self.values_mapping@,
                self.delmap_mapping@,
            );
        }
        while remaining > 0
            invariant
                crate::moving::compacted(
                    old(self).image(),
                    old(self).memory().values,
                    old(self).memory().delmap,
                    self.image(),
                    self.memory().values,
                    self.memory().delmap,
                ),
                self.wf(),
                self.memory().salt == old(self).memory().salt,
                self.memory().ht == old(self).memory().ht,
                self.memory().del_balance == old(self).memory().del_balance - (k - done),
                self.image().first_logical() == old(self).image().first_logical() + 128 * (k
                    - done),
                old(self).image().next_logical() <= self.image().next_logical(),
                self.image().next_logical() <= old(self).image().next_logical() + 128 * (k - done),
                done <= k,
                remaining > 0 ==> self.image().first_logical() + remaining
                    <= self.image().next_logical(),
                self.image().next_logical() + remaining + VALUE_SIZE <= VALUE_LIMIT - VALUE_SIZE,
                0 <= k,
                k + slots_for(remaining as nat) == count,
                orig.first_logical() % VALUE_SIZE == 0,
                orig.next_logical() % VALUE_SIZE == 0,
                orig.first_logical() + 128 * count <= orig.next_logical(),
                crate::indexshape::index_kept(
                    old(self).image(),
                    self.image(),
                    old(self).memory().ht,
                ),
                crate::moving::run_live(orig, orig_delmap, count) ==> crate::moving::moved_live(
                    orig,
                    orig_values,
                    orig_delmap,
                    self.image(),
                    self.memory().values,
                    self.memory().delmap,
                    k,
                ),
                crate::moving::run_dead(orig, orig_delmap, count) ==> crate::moving::moved_dead(
                    orig,
                    orig_values,
                    orig_delmap,
                    self.image(),
                    self.memory().values,
                    self.memory().delmap,
                    k,
                ),
            decreases remaining,
        {
            let ghost before = self.image();
            let ghost values1 = self.values_mapping@;
            let ghost delmap1 = self.delmap_mapping@;
            let _ = self.move_one_value();
            proof {
                let after = self.image();
                crate::moving::lemma_compacted_one(
                    before,
                    values1,
                    delmap1,
                    after,
                    self.values_mapping@,
                    self.delmap_mapping@,
                );
                crate::moving::lemma_compacted_twice(
                    old(self).image(),
                    old(self).values_mapping@,
                    old(self).delmap_mapping@,
                    before,
                    values1,
                    delmap1,
                    after,
                    self.values_mapping@,
                    self.delmap_mapping@,
                );
                if crate::moving::run_live(orig, orig_delmap, count) {
                    assert(orig.is_live(orig_delmap, slot_of(orig.first_logical(), k)));
                    crate::moving::lemma_moved_live_step(
                        orig,
                        orig_values,
                        orig_delmap,
                        before,
                        values1,
                        delmap1,
                        after,
                        self.values_mapping@,
                        self.delmap_mapping@,
                        k,
                    );
                }
                if crate::moving::run_dead(orig, orig_delmap, count) {
                    assert(!orig.is_live(orig_delmap, slot_of(orig.first_logical(), k)));
                    crate::moving::lemma_moved_dead_step(
                        orig,
                        orig_values,
                        orig_delmap,
                        before,
                        values1,
                        delmap1,
                        after,
                        self.values_mapping@,
                        self.delmap_mapping@,
                        k,
                    );
                }
                k = k + 1;
            }
            remaining = remaining.saturating_sub(VALUE_SIZE);
            self.del_balance -= 1;
        }
    }
}

} // verus!
