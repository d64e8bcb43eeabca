use vstd::prelude::*;
use crate::image::Image;
use crate::layout::HASH_LEN;
use crate::layout::NO_VALUE;
use crate::layout::VALUE_SIZE;
use crate::logframe::lemma_slot_between;
use crate::logframe::marks_kept;
use crate::logframe::slots_kept;
use crate::record::RECORD_HEADER;
use crate::record::slots_for;
use crate::records::lemma_run_kept;

verus! {

/// The logical offset of slot `i` of the record that starts at `offset`.
pub open spec fn slot_of(offset: u64, i: int) -> u64 {
    (offset + 128 * i) as u64
}

impl Image {
    /// The hash of the record that starts at the logical offset `offset`.
    pub open spec fn hash_at(self, values: Map<u64, u64>, offset: u64) -> Seq<u8> {
        self.value_at(values, offset).subrange(0, HASH_LEN as int)
    }

    /// The number of slots of the record that starts at the logical offset `offset`.
    pub open spec fn record_slots(self, values: Map<u64, u64>, offset: u64) -> nat {
        slots_for(self.record_length_at(values, offset) as nat)
    }

    /// The logical offset at which the record that starts at `offset` ends.
    pub open spec fn record_end(self, values: Map<u64, u64>, offset: u64) -> int {
        offset + 128 * self.record_slots(values, offset)
    }

    /// Whether every slot of the record that starts at `offset` is live.
    pub open spec fn record_live(
        self,
        values: Map<u64, u64>,
        delmap: Map<u64, u64>,
        offset: u64,
    ) -> bool {
        forall|i: int|
            0 <= i < self.record_slots(values, offset) ==> self.is_live(
                delmap,
                #[trigger] slot_of(offset, i),
            )
    }

    /// Whether every slot of the record that starts at `offset` is marked deleted.
    pub open spec fn record_dead(
        self,
        values: Map<u64, u64>,
        delmap: Map<u64, u64>,
        offset: u64,
    ) -> bool {
        forall|i: int|
            0 <= i < self.record_slots(values, offset) ==> !self.is_live(
                delmap,
                #[trigger] slot_of(offset, i),
            )
    }

    /// Whether the records that start at the offsets `recs` fill the log between
    /// `first` and `next`, one after the other.
    pub open spec fn tiles(self, values: Map<u64, u64>, recs: Seq<u64>, first: u64, next: u64) -> bool {
        &&& first % VALUE_SIZE == 0
        &&& next % VALUE_SIZE == 0
        &&& first <= next
        &&& recs.len() == 0 ==> first == next
        &&& recs.len() > 0 ==> recs[0] == first && self.record_end(
            values,
            recs[recs.len() - 1],
        ) == next
        &&& forall|i: int|
            0 <= i < recs.len() ==> (#[trigger] recs[i]) % VALUE_SIZE == 0 && RECORD_HEADER
                <= self.record_length_at(values, recs[i])
        &&& forall|i: int, j: int|
            0 <= i && j == i + 1 && j < recs.len() ==> self.record_end(values, #[trigger] recs[i])
                == #[trigger] recs[j]
    }

    /// Whether the record at `offset` is one of `recs`, is live, and is the record of
    /// `hash`.
    pub open spec fn points(
        self,
        values: Map<u64, u64>,
        delmap: Map<u64, u64>,
        recs: Seq<u64>,
        hash: Seq<u8>,
        offset: u64,
    ) -> bool {
        &&& recs.contains(offset)
        &&& self.hash_at(values, offset) == hash
        &&& self.record_live(values, delmap, offset)
    }

    /// Whether index and log belong together: the log is made of the records `recs`,
    /// each of them live in all its slots or deleted in all its slots, and the index
    /// points for every hash that it holds, but for the hash `except`, to a live
    /// record of that hash.
    pub open spec fn linked_but(
        self,
        ht: Seq<([u8; 26], u64)>,
        values: Map<u64, u64>,
        delmap: Map<u64, u64>,
        recs: Seq<u64>,
        except: Option<Seq<u8>>,
    ) -> bool {
        &&& self.tiles(values, recs, self.first_logical(), self.next_logical())
        &&& forall|i: int|
            0 <= i < recs.len() ==> self.record_live(values, delmap, #[trigger] recs[i])
                || self.record_dead(values, delmap, recs[i])
        &&& forall|hash: Seq<u8>|
            (#[trigger] self.lookup(ht, hash)) != NO_VALUE && except != Some(hash) ==> self.points(
                values,
                delmap,
                recs,
                hash,
                (self.lookup(ht, hash) - 1) as u64,
            )
    }
}

/// An engine with an empty log and an index in which nothing is found is linked.
pub proof fn lemma_linked_empty(
    image: Image,
    ht: Seq<([u8; 26], u64)>,
    values: Map<u64, u64>,
    delmap: Map<u64, u64>,
)
    requires
        image.first_logical() == 0,
        image.next_logical() == 0,
        forall|hash: Seq<u8>| #[trigger] image.lookup(ht, hash) == NO_VALUE,
    ensures
        image.linked_but(ht, values, delmap, Seq::<u64>::empty(), None),
{
}

/// The records that fill a log stand in ascending order, each within the log and
/// before the ones behind it.
pub proof fn lemma_tiles_order(
    image: Image,
    values: Map<u64, u64>,
    recs: Seq<u64>,
    first: u64,
    next: u64,
    i: int,
    j: int,
)
    requires
        image.tiles(values, recs, first, next),
        0 <= i <= j < recs.len(),
    ensures
        first <= recs[i] <= recs[j],
        recs[j] < image.record_end(values, recs[j]) <= next,
        i < j ==> image.record_end(values, recs[i]) <= recs[j],
        i == j || recs[i] != recs[j],
    decreases recs.len() - i,
{
    lemma_tiles_end(image, values, recs, first, next, j);
    lemma_tiles_start(image, values, recs, first, next, i);
    if i < j {
        lemma_tiles_order(image, values, recs, first, next, i + 1, j);
        assert(image.record_end(values, recs[i]) == recs[i + 1]);
        assert(RECORD_HEADER <= image.record_length_at(values, recs[i]));
    }
}

/// Every record of a log starts at or behind the start of the log.
pub proof fn lemma_tiles_start(
    image: Image,
    values: Map<u64, u64>,
    recs: Seq<u64>,
    first: u64,
    next: u64,
    i: int,
)
    requires
        image.tiles(values, recs, first, next),
        0 <= i < recs.len(),
    ensures
        first <= recs[i],
    decreases i,
{
    if i > 0 {
        lemma_tiles_start(image, values, recs, first, next, i - 1);
        assert(image.record_end(values, recs[i - 1]) == recs[i]);
        assert(RECORD_HEADER <= image.record_length_at(values, recs[i - 1]));
    }
}

/// Every record of a log ends within the log.
pub proof fn lemma_tiles_end(
    image: Image,
    values: Map<u64, u64>,
    recs: Seq<u64>,
    first: u64,
    next: u64,
    j: int,
)
    requires
        image.tiles(values, recs, first, next),
        0 <= j < recs.len(),
    ensures
        recs[j] < image.record_end(values, recs[j]) <= next,
    decreases recs.len() - j,
{
    if j + 1 < recs.len() {
        lemma_tiles_end(image, values, recs, first, next, j + 1);
        assert(image.record_end(values, recs[j]) == recs[j + 1]);
    }
    assert(RECORD_HEADER <= image.record_length_at(values, recs[j]));
}

/// A record whose slots and marks were kept is the record it was.
pub proof fn lemma_record_kept(
    before: Image,
    before_values: Map<u64, u64>,
    before_delmap: Map<u64, u64>,
    after: Image,
    after_values: Map<u64, u64>,
    after_delmap: Map<u64, u64>,
    first: u64,
    end: u64,
    offset: u64,
)
    requires
        slots_kept(before, before_values, after, after_values, first, end),
        marks_kept(before, before_delmap, after, after_delmap, first, end),
        offset % VALUE_SIZE == 0,
        first <= offset < end,
        before.record_end(before_values, offset) <= end,
    ensures
        after.value_at(after_values, offset) == before.value_at(before_values, offset),
        after.record_length_at(after_values, offset) == before.record_length_at(
            before_values,
            offset,
        ),
        after.hash_at(after_values, offset) == before.hash_at(before_values, offset),
        after.payload_at(after_values, offset) == before.payload_at(before_values, offset),
        after.record_live(after_values, after_delmap, offset) == before.record_live(
            before_values,
            before_delmap,
            offset,
        ),
        after.record_dead(after_values, after_delmap, offset) == before.record_dead(
            before_values,
            before_delmap,
            offset,
        ),
{
    lemma_slot_between(offset, first, end);
    assert(after.value_at(after_values, offset) == before.value_at(before_values, offset));
    let n = before.record_slots(before_values, offset);
    lemma_run_kept(before, before_values, after, after_values, first, end, offset, n);
    assert forall|i: int| 0 <= i < n implies after.is_live(
        after_delmap,
        #[trigger] slot_of(offset, i),
    ) == before.is_live(before_delmap, slot_of(offset, i)) by {
        lemma_slot_between(slot_of(offset, i), first, end);
    }
}

/// Records that keep their first slots fill the log as before.
pub proof fn lemma_tiles_kept(
    before: Image,
    before_values: Map<u64, u64>,
    after: Image,
    after_values: Map<u64, u64>,
    recs: Seq<u64>,
    first: u64,
    next: u64,
)
    requires
        before.tiles(before_values, recs, first, next),
        forall|i: int|
            0 <= i < recs.len() ==> after.value_at(after_values, #[trigger] recs[i])
                == before.value_at(before_values, recs[i]),
    ensures
        after.tiles(after_values, recs, first, next),
{
    assert forall|i: int| 0 <= i < recs.len() implies (#[trigger] recs[i]) % VALUE_SIZE == 0
        && RECORD_HEADER <= after.record_length_at(after_values, recs[i]) by {
        assert(after.value_at(after_values, recs[i]) == before.value_at(before_values, recs[i]));
    }
    assert forall|i: int, j: int| 0 <= i && j == i + 1 && j < recs.len() implies after.record_end(
        after_values,
        #[trigger] recs[i],
    ) == #[trigger] recs[j] by {
        assert(after.value_at(after_values, recs[i]) == before.value_at(before_values, recs[i]));
    }
    if recs.len() > 0 {
        let last = recs.len() - 1;
        assert(after.value_at(after_values, recs[last]) == before.value_at(
            before_values,
            recs[last],
        ));
    }
}

/// Whether the record that starts at `offset` is in `after` what it is in `before`:
/// its first slot, its value, and whether it is live or deleted.
pub open spec fn same_record(
    before: Image,
    before_values: Map<u64, u64>,
    before_delmap: Map<u64, u64>,
    after: Image,
    after_values: Map<u64, u64>,
    after_delmap: Map<u64, u64>,
    offset: u64,
) -> bool {
    &&& after.value_at(after_values, offset) == before.value_at(before_values, offset)
    &&& after.payload_at(after_values, offset) == before.payload_at(before_values, offset)
    &&& after.record_live(after_values, after_delmap, offset) == before.record_live(
        before_values,
        before_delmap,
        offset,
    )
    &&& after.record_dead(after_values, after_delmap, offset) == before.record_dead(
        before_values,
        before_delmap,
        offset,
    )
}

/// The records of a log from the one at index `from` on stay what they are where the
/// slots and marks from that record on were kept.
pub proof fn lemma_recs_kept(
    before: Image,
    before_values: Map<u64, u64>,
    before_delmap: Map<u64, u64>,
    after: Image,
    after_values: Map<u64, u64>,
    after_delmap: Map<u64, u64>,
    recs: Seq<u64>,
    first: u64,
    next: u64,
    from: int,
    lo: u64,
)
    requires
        before.tiles(before_values, recs, first, next),
        0 <= from <= recs.len(),
        from < recs.len() ==> lo <= recs[from],
        slots_kept(before, before_values, after, after_values, lo, next),
        marks_kept(before, before_delmap, after, after_delmap, lo, next),
    ensures
        forall|i: int|
            from <= i < recs.len() ==> same_record(
                before,
                before_values,
                before_delmap,
                after,
                after_values,
                after_delmap,
                #[trigger] recs[i],
            ),
{
    assert forall|i: int| from <= i < recs.len() implies same_record(
        before,
        before_values,
        before_delmap,
        after,
        after_values,
        after_delmap,
        #[trigger] recs[i],
    ) by {
        lemma_tiles_order(before, before_values, recs, first, next, from, i);
        lemma_record_kept(
            before,
            before_values,
            before_delmap,
            after,
            after_values,
            after_delmap,
            lo,
            next,
            recs[i],
        );
    }
}

/// In a linked engine the index leads for every hash it holds to the value of a
/// record of the log.
pub proof fn lemma_linked_stored(
    image: Image,
    ht: Seq<([u8; 26], u64)>,
    values: Map<u64, u64>,
    delmap: Map<u64, u64>,
    recs: Seq<u64>,
    except: Option<Seq<u8>>,
    hash: Seq<u8>,
)
    requires
        image.linked_but(ht, values, delmap, recs, except),
        image.lookup(ht, hash) != NO_VALUE,
        except != Some(hash),
    ensures
        image.record_ok(values, (image.lookup(ht, hash) - 1) as u64),
        image.fetch(ht, values, hash) == Some(
            image.payload_at(values, (image.lookup(ht, hash) - 1) as u64),
        ),
{
    let offset = (image.lookup(ht, hash) - 1) as u64;
    assert(image.points(values, delmap, recs, hash, offset));
    let i = choose|i: int| 0 <= i < recs.len() && recs[i] == offset;
    lemma_tiles_order(image, values, recs, image.first_logical(), image.next_logical(), i, i);
}

/// A linked engine stays linked, and holds for every hash what it held, where the
/// ends of the log, its slots and marks, and the answers of the index are kept.
pub proof fn lemma_linked_kept(
    before: Image,
    before_ht: Seq<([u8; 26], u64)>,
    before_values: Map<u64, u64>,
    before_delmap: Map<u64, u64>,
    after: Image,
    after_ht: Seq<([u8; 26], u64)>,
    after_values: Map<u64, u64>,
    after_delmap: Map<u64, u64>,
    recs: Seq<u64>,
    except: Option<Seq<u8>>,
)
    requires
        before.linked_but(before_ht, before_values, before_delmap, recs, except),
        after.first_logical() == before.first_logical(),
        after.next_logical() == before.next_logical(),
        slots_kept(
            before,
            before_values,
            after,
            after_values,
            before.first_logical(),
            before.next_logical(),
        ),
        marks_kept(
            before,
            before_delmap,
            after,
            after_delmap,
            before.first_logical(),
            before.next_logical(),
        ),
        forall|hash: Seq<u8>|
            except != Some(hash) ==> #[trigger] after.lookup(after_ht, hash) == before.lookup(
                before_ht,
                hash,
            ),
    ensures
        after.linked_but(after_ht, after_values, after_delmap, recs, except),
        forall|hash: Seq<u8>|
            except != Some(hash) ==> #[trigger] after.fetch(after_ht, after_values, hash)
                == before.fetch(before_ht, before_values, hash),
{
    let first = before.first_logical();
    let next = before.next_logical();
    lemma_recs_kept(
        before,
        before_values,
        before_delmap,
        after,
        after_values,
        after_delmap,
        recs,
        first,
        next,
        0,
        first,
    );
    assert forall|i: int| 0 <= i < recs.len() implies after.value_at(
        after_values,
        #[trigger] recs[i],
    ) == before.value_at(before_values, recs[i]) by {
        assert(same_record(
            before,
            before_values,
            before_delmap,
            after,
            after_values,
            after_delmap,
            recs[i],
        ));
    }
    lemma_tiles_kept(before, before_values, after, after_values, recs, first, next);
    assert forall|i: int| 0 <= i < recs.len() implies after.record_live(
        after_values,
        after_delmap,
        #[trigger] recs[i],
    ) || after.record_dead(after_values, after_delmap, recs[i]) by {
        assert(same_record(
            before,
            before_values,
            before_delmap,
            after,
            after_values,
            after_delmap,
            recs[i],
        ));
    }
    assert forall|hash: Seq<u8>|
        (#[trigger] after.lookup(after_ht, hash)) != NO_VALUE && except != Some(
            hash,
        ) implies after.points(
        after_values,
        after_delmap,
        recs,
        hash,
        (after.lookup(after_ht, hash) - 1) as u64,
    ) by {
        let offset = (before.lookup(before_ht, hash) - 1) as u64;
        assert(before.points(before_values, before_delmap, recs, hash, offset));
        let i = choose|i: int| 0 <= i < recs.len() && recs[i] == offset;
        assert(same_record(
            before,
            before_values,
            before_delmap,
            after,
            after_values,
            after_delmap,
            recs[i],
        ));
    }
    assert forall|hash: Seq<u8>| except != Some(hash) implies #[trigger] after.fetch(
        after_ht,
        after_values,
        hash,
    ) == before.fetch(before_ht, before_values, hash) by {
        if before.lookup(before_ht, hash) != NO_VALUE {
            lemma_linked_stored(before, before_ht, before_values, before_delmap, recs, except, hash);
            lemma_linked_stored(after, after_ht, after_values, after_delmap, recs, except, hash);
            let offset = (before.lookup(before_ht, hash) - 1) as u64;
            let i = choose|i: int| 0 <= i < recs.len() && recs[i] == offset;
            assert(before.points(before_values, before_delmap, recs, hash, offset));
            assert(same_record(
                before,
                before_values,
                before_delmap,
                after,
                after_values,
                after_delmap,
                recs[i],
            ));
        }
    }
}

/// A record behind the records that fill a log fills the longer log with them.
pub proof fn lemma_tiles_push(
    before: Image,
    before_values: Map<u64, u64>,
    after: Image,
    after_values: Map<u64, u64>,
    recs: Seq<u64>,
    first: u64,
    start: u64,
    next: u64,
)
    requires
        before.tiles(before_values, recs, first, start),
        forall|i: int|
            0 <= i < recs.len() ==> after.value_at(after_values, #[trigger] recs[i])
                == before.value_at(before_values, recs[i]),
        next == after.record_end(after_values, start),
        RECORD_HEADER <= after.record_length_at(after_values, start),
    ensures
        after.tiles(after_values, recs.push(start), first, next),
{
    let more = recs.push(start);
    assert forall|i: int| 0 <= i < more.len() implies (#[trigger] more[i]) % VALUE_SIZE == 0
        && RECORD_HEADER <= after.record_length_at(after_values, more[i]) by {
        if i < recs.len() {
            assert(more[i] == recs[i]);
            assert(after.value_at(after_values, recs[i]) == before.value_at(
                before_values,
                recs[i],
            ));
        }
    }
    assert forall|i: int, j: int| 0 <= i && j == i + 1 && j < more.len() implies after.record_end(
        after_values,
        #[trigger] more[i],
    ) == #[trigger] more[j] by {
        assert(more[i] == recs[i]);
        assert(after.value_at(after_values, recs[i]) == before.value_at(before_values, recs[i]));
        if j < recs.len() {
            assert(more[j] == recs[j]);
            assert(before.record_end(before_values, recs[i]) == recs[j]);
        } else {
            assert(i == recs.len() - 1);
        }
    }
    if recs.len() > 0 {
        assert(more[0] == recs[0]);
    }
    assert(more[more.len() - 1] == start);
}

/// Appending a live record to the log of a linked engine leaves the engine linked,
/// with the new record behind the others.
#[verifier::spinoff_prover]
pub proof fn lemma_linked_append(
    before: Image,
    ht: Seq<([u8; 26], u64)>,
    before_values: Map<u64, u64>,
    before_delmap: Map<u64, u64>,
    after: Image,
    after_values: Map<u64, u64>,
    after_delmap: Map<u64, u64>,
    recs: Seq<u64>,
    except: Option<Seq<u8>>,
)
    requires
        before.linked_but(ht, before_values, before_delmap, recs, except),
        after.first_logical() == before.first_logical(),
        after.next_logical() == after.record_end(after_values, before.next_logical()),
        RECORD_HEADER <= after.record_length_at(after_values, before.next_logical()),
        after.record_live(after_values, after_delmap, before.next_logical()),
        slots_kept(
            before,
            before_values,
            after,
            after_values,
            before.first_logical(),
            before.next_logical(),
        ),
        marks_kept(
            before,
            before_delmap,
            after,
            after_delmap,
            before.first_logical(),
            before.next_logical(),
        ),
        forall|hash: Seq<u8>| #[trigger] after.lookup(ht, hash) == before.lookup(ht, hash),
    ensures
        after.linked_but(ht, after_values, after_delmap, recs.push(before.next_logical()), except),
{
    let first = before.first_logical();
    let start = before.next_logical();
    let more = recs.push(start);
    lemma_recs_kept(
        before,
        before_values,
        before_delmap,
        after,
        after_values,
        after_delmap,
        recs,
        first,
        start,
        0,
        first,
    );
    assert forall|i: int| 0 <= i < recs.len() implies after.value_at(
        after_values,
        #[trigger] recs[i],
    ) == before.value_at(before_values, recs[i]) by {
        assert(same_record(
            before,
            before_values,
            before_delmap,
            after,
            after_values,
            after_delmap,
            recs[i],
        ));
    }
    lemma_tiles_push(
        before,
        before_values,
        after,
        after_values,
        recs,
        first,
        start,
        after.next_logical(),
    );
    assert forall|i: int| 0 <= i < more.len() implies after.record_live(
        after_values,
        after_delmap,
        #[trigger] more[i],
    ) || after.record_dead(after_values, after_delmap, more[i]) by {
        if i < recs.len() {
            assert(more[i] == recs[i]);
            assert(same_record(
                before,
                before_values,
                before_delmap,
                after,
                after_values,
                after_delmap,
                recs[i],
            ));
        } else {
            assert(more[i] == start);
        }
    }
    assert forall|hash: Seq<u8>|
        (#[trigger] after.lookup(ht, hash)) != NO_VALUE && except != Some(hash) implies after.points(
        after_values,
        after_delmap,
        more,
        hash,
        (after.lookup(ht, hash) - 1) as u64,
    ) by {
        let offset = (before.lookup(ht, hash) - 1) as u64;
        assert(before.points(before_values, before_delmap, recs, hash, offset));
        let i = choose|i: int| 0 <= i < recs.len() && recs[i] == offset;
        assert(more[i] == offset);
        assert(same_record(
            before,
            before_values,
            before_delmap,
            after,
            after_values,
            after_delmap,
            recs[i],
        ));
    }
}

/// Appending to the log of a linked engine leaves what the engine holds for a hash
/// as it is.
pub proof fn lemma_appended_fetch(
    before: Image,
    ht: Seq<([u8; 26], u64)>,
    before_values: Map<u64, u64>,
    before_delmap: Map<u64, u64>,
    after: Image,
    after_values: Map<u64, u64>,
    recs: Seq<u64>,
    hash: Seq<u8>,
)
    requires
        before.linked_but(ht, before_values, before_delmap, recs, None),
        after.first_logical() == before.first_logical(),
        before.next_logical() <= after.next_logical(),
        slots_kept(
            before,
            before_values,
            after,
            after_values,
            before.first_logical(),
            before.next_logical(),
        ),
        after.lookup(ht, hash) == before.lookup(ht, hash),
    ensures
        after.fetch(ht, after_values, hash) == before.fetch(ht, before_values, hash),
{
    if before.lookup(ht, hash) != NO_VALUE {
        lemma_linked_stored(before, ht, before_values, before_delmap, recs, None, hash);
        crate::records::lemma_fetch_kept(
            before,
            ht,
            before_values,
            after,
            ht,
            after_values,
            hash,
        );
    }
}

/// Letting the index point for a hash to a live record of that hash leaves a linked
/// engine linked; the engine then holds the value of that record for the hash, and
/// for every other hash what it held.
pub proof fn lemma_linked_set(
    before: Image,
    before_ht: Seq<([u8; 26], u64)>,
    values: Map<u64, u64>,
    delmap: Map<u64, u64>,
    after: Image,
    after_ht: Seq<([u8; 26], u64)>,
    recs: Seq<u64>,
    except: Option<Seq<u8>>,
    hash: Seq<u8>,
    offset: u64,
)
    requires
        before.linked_but(before_ht, values, delmap, recs, except),
        after.first_logical() == before.first_logical(),
        after.next_logical() == before.next_logical(),
        slots_kept(before, values, after, values, before.first_logical(), before.next_logical()),
        marks_kept(before, delmap, after, delmap, before.first_logical(), before.next_logical()),
        crate::indexlaws::answers_with(
            before,
            before_ht,
            after,
            after_ht,
            hash,
            (offset + 1) as u64,
        ),
        offset + 1 <= u64::MAX,
        before.points(values, delmap, recs, hash, offset),
    ensures
        after.linked_but(after_ht, values, delmap, recs, except),
        except == Some(hash) ==> after.linked_but(after_ht, values, delmap, recs, None),
        after.fetch(after_ht, values, hash) == Some(before.payload_at(values, offset)),
        forall|other: Seq<u8>|
            other != hash && except != Some(other) ==> #[trigger] after.fetch(
                after_ht,
                values,
                other,
            ) == before.fetch(before_ht, values, other),
{
    let first = before.first_logical();
    let next = before.next_logical();
    lemma_recs_kept(before, values, delmap, after, values, delmap, recs, first, next, 0, first);
    assert forall|i: int| 0 <= i < recs.len() implies after.value_at(values, #[trigger] recs[i])
        == before.value_at(values, recs[i]) && (after.record_live(values, delmap, recs[i])
        || after.record_dead(values, delmap, recs[i])) by {
        assert(same_record(before, values, delmap, after, values, delmap, recs[i]));
    }
    lemma_tiles_kept(before, values, after, values, recs, first, next);
    let k = choose|k: int| 0 <= k < recs.len() && recs[k] == offset;
    assert(same_record(before, values, delmap, after, values, delmap, recs[k]));
    assert forall|other: Seq<u8>|
        (#[trigger] after.lookup(after_ht, other)) != NO_VALUE && (other == hash || except != Some(
            other,
        )) implies after.points(
        values,
        delmap,
        recs,
        other,
        (after.lookup(after_ht, other) - 1) as u64,
    ) by {
        if other != hash {
            let at = (before.lookup(before_ht, other) - 1) as u64;
            assert(before.points(values, delmap, recs, other, at));
            let i = choose|i: int| 0 <= i < recs.len() && recs[i] == at;
            assert(same_record(before, values, delmap, after, values, delmap, recs[i]));
        }
    }
    let loose = if except == Some(hash) {
        None
    } else {
        except
    };
    assert(after.linked_but(after_ht, values, delmap, recs, loose));
    lemma_linked_stored(after, after_ht, values, delmap, recs, loose, hash);
    assert forall|other: Seq<u8>| other != hash && except != Some(other) implies #[trigger] after.fetch(
        after_ht,
        values,
        other,
    ) == before.fetch(before_ht, values, other) by {
        crate::records::lemma_fetch_same(before, before_ht, values, after, after_ht, values, other);
    }
}

/// Taking a hash out of the index leaves a linked engine linked, also where the hash
/// was the one that the index held without a record; the engine then holds nothing
/// for the hash, and for every other hash what it held.
pub proof fn lemma_linked_unset(
    before: Image,
    ht: Seq<([u8; 26], u64)>,
    values: Map<u64, u64>,
    delmap: Map<u64, u64>,
    after: Image,
    recs: Seq<u64>,
    except: Option<Seq<u8>>,
    hash: Seq<u8>,
)
    requires
        before.linked_but(ht, values, delmap, recs, except),
        except is None || except == Some(hash),
        after.first_logical() == before.first_logical(),
        after.next_logical() == before.next_logical(),
        slots_kept(before, values, after, values, before.first_logical(), before.next_logical()),
        marks_kept(before, delmap, after, delmap, before.first_logical(), before.next_logical()),
        crate::indexlaws::answers_without(before, after, ht, hash),
    ensures
        after.linked_but(ht, values, delmap, recs, None),
        after.fetch(ht, values, hash) is None,
        forall|other: Seq<u8>|
            other != hash ==> #[trigger] after.fetch(ht, values, other) == before.fetch(
                ht,
                values,
                other,
            ),
{
    let first = before.first_logical();
    let next = before.next_logical();
    lemma_recs_kept(before, values, delmap, after, values, delmap, recs, first, next, 0, first);
    assert forall|i: int| 0 <= i < recs.len() implies after.value_at(values, #[trigger] recs[i])
        == before.value_at(values, recs[i]) && (after.record_live(values, delmap, recs[i])
        || after.record_dead(values, delmap, recs[i])) by {
        assert(same_record(before, values, delmap, after, values, delmap, recs[i]));
    }
    lemma_tiles_kept(before, values, after, values, recs, first, next);
    assert forall|other: Seq<u8>| (#[trigger] after.lookup(ht, other)) != NO_VALUE implies after.points(
        values,
        delmap,
        recs,
        other,
        (after.lookup(ht, other) - 1) as u64,
    ) by {
        let at = (before.lookup(ht, other) - 1) as u64;
        assert(before.points(values, delmap, recs, other, at));
        let i = choose|i: int| 0 <= i < recs.len() && recs[i] == at;
        assert(same_record(before, values, delmap, after, values, delmap, recs[i]));
    }
    assert forall|other: Seq<u8>| other != hash implies #[trigger] after.fetch(ht, values, other)
        == before.fetch(ht, values, other) by {
        crate::records::lemma_fetch_same(before, ht, values, after, ht, values, other);
    }
}

/// Whether every slot of the log between `first` and `end`, but those from `lo` up to
/// `hi`, is live in `after` exactly if it was live in `before`.
pub open spec fn marks_kept_outside(
    before: Image,
    before_delmap: Map<u64, u64>,
    after: Image,
    after_delmap: Map<u64, u64>,
    first: u64,
    end: u64,
    lo: int,
    hi: int,
) -> bool {
    forall|offset: u64|
        #![trigger after.is_live(after_delmap, offset)]
        crate::logframe::mark_between(offset, first, end) && !(lo <= offset < hi) ==> after.is_live(
            after_delmap,
            offset,
        ) == before.is_live(before_delmap, offset)
}

/// Marking one more slot of a record as deleted: the slots marked so far are
/// deleted, and the marks outside them are kept.
pub proof fn lemma_mark_step(
    orig: Image,
    before: Image,
    after: Image,
    delmap: Map<u64, u64>,
    first: u64,
    next: u64,
    offset: u64,
    marked: int,
)
    requires
        0 <= marked,
        offset % VALUE_SIZE == 0,
        first <= offset,
        offset + 128 * marked < next,
        marks_kept_outside(orig, delmap, before, delmap, first, next, offset as int, offset + 128 * marked),
        crate::logframe::marks_kept_but(
            before,
            delmap,
            after,
            delmap,
            first,
            next,
            slot_of(offset, marked),
        ),
        !after.is_live(delmap, slot_of(offset, marked)),
        forall|i: int| 0 <= i < marked ==> !before.is_live(delmap, #[trigger] slot_of(offset, i)),
    ensures
        marks_kept_outside(
            orig,
            delmap,
            after,
            delmap,
            first,
            next,
            offset as int,
            offset + 128 * (marked + 1),
        ),
        forall|i: int| 0 <= i < marked + 1 ==> !after.is_live(delmap, #[trigger] slot_of(offset, i)),
{
    assert forall|i: int| 0 <= i < marked + 1 implies !after.is_live(
        delmap,
        #[trigger] slot_of(offset, i),
    ) by {
        if i < marked {
            lemma_slot_between(slot_of(offset, i), first, next);
            assert(!before.is_live(delmap, slot_of(offset, i)));
        }
    }
    assert forall|other: u64|
        #![trigger after.is_live(delmap, other)]
        crate::logframe::mark_between(other, first, next) && !(offset <= other < offset + 128 * (
        marked + 1)) implies after.is_live(delmap, other) == orig.is_live(delmap, other) by {
        assert(before.is_live(delmap, other) == orig.is_live(delmap, other));
    }
}

/// Whether `now` is `orig` after the record at `offset` was marked as deleted and the
/// log was compacted: the log starts and ends no earlier; the slots of `orig` that
/// the log still holds read as they did; those of the record are marked as deleted;
/// and the others are live if they were.
pub open spec fn dropped(
    orig: Image,
    orig_values: Map<u64, u64>,
    orig_delmap: Map<u64, u64>,
    now: Image,
    now_values: Map<u64, u64>,
    now_delmap: Map<u64, u64>,
    offset: u64,
) -> bool {
    &&& orig.first_logical() <= now.first_logical()
    &&& orig.next_logical() <= now.next_logical()
    &&& slots_kept(orig, orig_values, now, now_values, now.first_logical(), orig.next_logical())
    &&& marks_kept_outside(
        orig,
        orig_delmap,
        now,
        now_delmap,
        now.first_logical(),
        orig.next_logical(),
        offset as int,
        orig.record_end(orig_values, offset),
    )
    &&& forall|i: int|
        0 <= i < orig.record_slots(orig_values, offset) && now.first_logical() <= slot_of(offset, i)
            ==> !now.is_live(now_delmap, #[trigger] slot_of(offset, i))
}

/// Marking a record as deleted and compacting the log then drops the record.
#[verifier::spinoff_prover]
pub proof fn lemma_dropped(
    orig: Image,
    values: Map<u64, u64>,
    delmap: Map<u64, u64>,
    marked: Image,
    now: Image,
    now_values: Map<u64, u64>,
    now_delmap: Map<u64, u64>,
    offset: u64,
)
    requires
        orig.record_ok(values, offset),
        orig.next_logical() % VALUE_SIZE == 0,
        marked.first_logical() == orig.first_logical(),
        marked.next_logical() == orig.next_logical(),
        slots_kept(orig, values, marked, values, orig.first_logical(), orig.next_logical()),
        marks_kept_outside(
            orig,
            delmap,
            marked,
            delmap,
            orig.first_logical(),
            orig.next_logical(),
            offset as int,
            orig.record_end(values, offset),
        ),
        marked.record_dead(values, delmap, offset),
        crate::moving::compacted(marked, values, delmap, now, now_values, now_delmap),
    ensures
        dropped(orig, values, delmap, now, now_values, now_delmap, offset),
{
    let first = orig.first_logical();
    let next = orig.next_logical();
    let moved = now.first_logical();
    crate::records::lemma_record_fits(orig, values, offset);
    crate::logframe::lemma_slots_kept_later(orig, values, marked, values, first, moved, next);
    crate::logframe::lemma_slots_kept_twice(
        orig,
        values,
        marked,
        values,
        now,
        now_values,
        moved,
        next,
    );
    lemma_slot_between(offset, first, next);
    assert(marked.value_at(values, offset) == orig.value_at(values, offset));
    assert forall|i: int|
        0 <= i < orig.record_slots(values, offset) && moved <= slot_of(offset, i) implies !now.is_live(
        now_delmap,
        #[trigger] slot_of(offset, i),
    ) by {
        lemma_slot_between(slot_of(offset, i), moved, next);
        assert(!marked.is_live(delmap, slot_of(offset, i)));
    }
    assert forall|other: u64|
        #![trigger now.is_live(now_delmap, other)]
        crate::logframe::mark_between(other, moved, next) && !(offset <= other < orig.record_end(
            values,
            offset,
        )) implies now.is_live(now_delmap, other) == orig.is_live(delmap, other) by {
        assert(crate::logframe::mark_between(other, first, next) && other != u64::MAX) by {
            reveal(crate::logframe::mark_between);
            crate::logshape::lemma_span_floor_monotone(first, moved, crate::layout::DELMAP_SPAN);
        }
        assert(marked.is_live(delmap, other) == orig.is_live(delmap, other));
        assert(now.is_live(now_delmap, other) == marked.is_live(delmap, other));
    }
}

/// A record away from the slots whose marks changed is the record it was.
pub proof fn lemma_record_spared(
    before: Image,
    before_values: Map<u64, u64>,
    before_delmap: Map<u64, u64>,
    after: Image,
    after_values: Map<u64, u64>,
    after_delmap: Map<u64, u64>,
    first: u64,
    end: u64,
    lo: int,
    hi: int,
    offset: u64,
)
    requires
        slots_kept(before, before_values, after, after_values, first, end),
        marks_kept_outside(before, before_delmap, after, after_delmap, first, end, lo, hi),
        offset % VALUE_SIZE == 0,
        first <= offset < end,
        before.record_end(before_values, offset) <= end,
        before.record_end(before_values, offset) <= lo || hi <= offset,
    ensures
        same_record(
            before,
            before_values,
            before_delmap,
            after,
            after_values,
            after_delmap,
            offset,
        ),
{
    lemma_slot_between(offset, first, end);
    assert(after.value_at(after_values, offset) == before.value_at(before_values, offset));
    let n = before.record_slots(before_values, offset);
    lemma_run_kept(before, before_values, after, after_values, first, end, offset, n);
    assert forall|i: int| 0 <= i < n implies after.is_live(
        after_delmap,
        #[trigger] slot_of(offset, i),
    ) == before.is_live(before_delmap, slot_of(offset, i)) by {
        lemma_slot_between(slot_of(offset, i), first, end);
    }
}

/// Marking every slot of a record of the log as deleted leaves a linked engine
/// linked, but for the hashes for which the index points to that record.
#[verifier::spinoff_prover]
pub proof fn lemma_linked_mark(
    before: Image,
    ht: Seq<([u8; 26], u64)>,
    values: Map<u64, u64>,
    delmap: Map<u64, u64>,
    after: Image,
    recs: Seq<u64>,
    except: Option<Seq<u8>>,
    loose: Option<Seq<u8>>,
    offset: u64,
)
    requires
        before.linked_but(ht, values, delmap, recs, except),
        except is None || except == loose,
        recs.contains(offset),
        forall|hash: Seq<u8>|
            #[trigger] before.lookup(ht, hash) == offset + 1 ==> loose == Some(hash),
        after.first_logical() == before.first_logical(),
        after.next_logical() == before.next_logical(),
        slots_kept(before, values, after, values, before.first_logical(), before.next_logical()),
        marks_kept_outside(
            before,
            delmap,
            after,
            delmap,
            before.first_logical(),
            before.next_logical(),
            offset as int,
            before.record_end(values, offset),
        ),
        after.record_dead(values, delmap, offset),
        forall|hash: Seq<u8>| #[trigger] after.lookup(ht, hash) == before.lookup(ht, hash),
    ensures
        after.linked_but(ht, values, delmap, recs, loose),
        forall|hash: Seq<u8>|
            #[trigger] after.fetch(ht, values, hash) == before.fetch(ht, values, hash),
{
    let first = before.first_logical();
    let next = before.next_logical();
    let k = choose|k: int| 0 <= k < recs.len() && recs[k] == offset;
    let hi = before.record_end(values, offset);
    assert forall|i: int| 0 <= i < recs.len() implies after.value_at(values, #[trigger] recs[i])
        == before.value_at(values, recs[i]) && (after.record_live(values, delmap, recs[i])
        || after.record_dead(values, delmap, recs[i])) && (i != k ==> same_record(
        before,
        values,
        delmap,
        after,
        values,
        delmap,
        recs[i],
    )) by {
        lemma_tiles_order(before, values, recs, first, next, i, i);
        lemma_slot_between(recs[i], first, next);
        if i < k {
            lemma_tiles_order(before, values, recs, first, next, i, k);
            lemma_record_spared(
                before,
                values,
                delmap,
                after,
                values,
                delmap,
                first,
                next,
                offset as int,
                hi,
                recs[i],
            );
        } else if i > k {
            lemma_tiles_order(before, values, recs, first, next, k, i);
            lemma_record_spared(
                before,
                values,
                delmap,
                after,
                values,
                delmap,
                first,
                next,
                offset as int,
                hi,
                recs[i],
            );
        }
    }
    lemma_tiles_kept(before, values, after, values, recs, first, next);
    assert forall|hash: Seq<u8>|
        (#[trigger] after.lookup(ht, hash)) != NO_VALUE && loose != Some(hash) implies after.points(
        values,
        delmap,
        recs,
        hash,
        (after.lookup(ht, hash) - 1) as u64,
    ) by {
        let at = (before.lookup(ht, hash) - 1) as u64;
        assert(before.points(values, delmap, recs, hash, at));
        let i = choose|i: int| 0 <= i < recs.len() && recs[i] == at;
        assert(i != k);
        assert(same_record(before, values, delmap, after, values, delmap, recs[i]));
    }
    assert forall|hash: Seq<u8>| #[trigger] after.fetch(ht, values, hash) == before.fetch(
        ht,
        values,
        hash,
    ) by {
        crate::records::lemma_fetch_same(before, ht, values, after, ht, values, hash);
    }
}

/// The slots of a record that were copied, one by one, make up the same run.
pub proof fn lemma_run_moved(
    before: Image,
    before_values: Map<u64, u64>,
    after: Image,
    after_values: Map<u64, u64>,
    from: u64,
    to: u64,
    n: nat,
)
    requires
        forall|i: int|
            0 <= i < n ==> after.value_at(after_values, #[trigger] slot_of(to, i))
                == before.value_at(before_values, slot_of(from, i)),
    ensures
        after.slots_from(after_values, to, n) == before.slots_from(before_values, from, n),
    decreases n,
{
    if n > 0 {
        lemma_run_moved(before, before_values, after, after_values, from, to, (n - 1) as nat);
        assert(after.value_at(after_values, slot_of(to, n - 1)) == before.value_at(
            before_values,
            slot_of(from, n - 1),
        ));
    }
}

/// The records of a log but the first fill the log behind the first.
pub proof fn lemma_tiles_rest(
    before: Image,
    before_values: Map<u64, u64>,
    after: Image,
    after_values: Map<u64, u64>,
    recs: Seq<u64>,
    first: u64,
    next: u64,
)
    requires
        before.tiles(before_values, recs, first, next),
        recs.len() > 0,
        forall|i: int|
            1 <= i < recs.len() ==> after.value_at(after_values, #[trigger] recs[i])
                == before.value_at(before_values, recs[i]),
    ensures
        before.record_end(before_values, first) <= next,
        after.tiles(
            after_values,
            recs.subrange(1, recs.len() as int),
            before.record_end(before_values, first) as u64,
            next,
        ),
{
    let rest = recs.subrange(1, recs.len() as int);
    lemma_tiles_order(before, before_values, recs, first, next, 0, 0);
    assert forall|i: int| 0 <= i < rest.len() implies (#[trigger] rest[i]) % VALUE_SIZE == 0
        && RECORD_HEADER <= after.record_length_at(after_values, rest[i]) by {
        assert(rest[i] == recs[i + 1]);
        assert(after.value_at(after_values, recs[i + 1]) == before.value_at(
            before_values,
            recs[i + 1],
        ));
    }
    assert forall|i: int, j: int| 0 <= i && j == i + 1 && j < rest.len() implies after.record_end(
        after_values,
        #[trigger] rest[i],
    ) == #[trigger] rest[j] by {
        assert(rest[i] == recs[i + 1]);
        assert(rest[j] == recs[j + 1]);
        assert(after.value_at(after_values, recs[i + 1]) == before.value_at(
            before_values,
            recs[i + 1],
        ));
        assert(before.record_end(before_values, recs[i + 1]) == recs[j + 1]);
    }
    if rest.len() > 0 {
        assert(rest[0] == recs[1]);
        assert(before.record_end(before_values, recs[0]) == recs[1]);
        let last = rest.len() - 1;
        assert(rest[last] == recs[last + 1]);
        assert(after.value_at(after_values, recs[last + 1]) == before.value_at(
            before_values,
            recs[last + 1],
        ));
    }
}

/// Moving the start of the log past its first record, which is deleted, leaves a
/// linked engine linked, and holding for every hash what it held.
#[verifier::spinoff_prover]
pub proof fn lemma_linked_dropped(
    before: Image,
    ht: Seq<([u8; 26], u64)>,
    before_values: Map<u64, u64>,
    before_delmap: Map<u64, u64>,
    after: Image,
    after_values: Map<u64, u64>,
    after_delmap: Map<u64, u64>,
    recs: Seq<u64>,
    except: Option<Seq<u8>>,
)
    requires
        before.linked_but(ht, before_values, before_delmap, recs, except),
        recs.len() > 0,
        before.record_dead(before_values, before_delmap, before.first_logical()),
        after.first_logical() == before.record_end(before_values, before.first_logical()),
        after.next_logical() == before.next_logical(),
        slots_kept(
            before,
            before_values,
            after,
            after_values,
            after.first_logical(),
            before.next_logical(),
        ),
        marks_kept(
            before,
            before_delmap,
            after,
            after_delmap,
            after.first_logical(),
            before.next_logical(),
        ),
        forall|hash: Seq<u8>| #[trigger] after.lookup(ht, hash) == before.lookup(ht, hash),
    ensures
        after.linked_but(
            ht,
            after_values,
            after_delmap,
            recs.subrange(1, recs.len() as int),
            except,
        ),
        forall|hash: Seq<u8>|
            except != Some(hash) ==> #[trigger] after.fetch(ht, after_values, hash) == before.fetch(
                ht,
                before_values,
                hash,
            ),
{
    let first = before.first_logical();
    let next = before.next_logical();
    let rest = recs.subrange(1, recs.len() as int);
    let moved = after.first_logical();
    lemma_tiles_order(before, before_values, recs, first, next, 0, 0);
    if recs.len() > 1 {
        assert(before.record_end(before_values, recs[0]) == recs[1]);
    }
    lemma_recs_kept(
        before,
        before_values,
        before_delmap,
        after,
        after_values,
        after_delmap,
        recs,
        first,
        next,
        1,
        moved,
    );
    assert forall|i: int| 1 <= i < recs.len() implies after.value_at(
        after_values,
        #[trigger] recs[i],
    ) == before.value_at(before_values, recs[i]) by {
        assert(same_record(
            before,
            before_values,
            before_delmap,
            after,
            after_values,
            after_delmap,
            recs[i],
        ));
    }
    lemma_tiles_rest(before, before_values, after, after_values, recs, first, next);
    assert forall|i: int| 0 <= i < rest.len() implies after.record_live(
        after_values,
        after_delmap,
        #[trigger] rest[i],
    ) || after.record_dead(after_values, after_delmap, rest[i]) by {
        assert(rest[i] == recs[i + 1]);
        assert(same_record(
            before,
            before_values,
            before_delmap,
            after,
            after_values,
            after_delmap,
            recs[i + 1],
        ));
    }
    assert(!before.record_live(before_values, before_delmap, first)) by {
        assert(RECORD_HEADER <= before.record_length_at(before_values, recs[0]));
        assert(!before.is_live(before_delmap, slot_of(first, 0)));
    }
    assert forall|hash: Seq<u8>|
        (#[trigger] after.lookup(ht, hash)) != NO_VALUE && except != Some(hash) implies after.points(
        after_values,
        after_delmap,
        rest,
        hash,
        (after.lookup(ht, hash) - 1) as u64,
    ) && after.fetch(ht, after_values, hash) == before.fetch(ht, before_values, hash) by {
        let at = (before.lookup(ht, hash) - 1) as u64;
        assert(before.points(before_values, before_delmap, recs, hash, at));
        let i = choose|i: int| 0 <= i < recs.len() && recs[i] == at;
        assert(i != 0);
        assert(rest[i - 1] == recs[i]);
        assert(same_record(
            before,
            before_values,
            before_delmap,
            after,
            after_values,
            after_delmap,
            recs[i],
        ));
        lemma_linked_stored(before, ht, before_values, before_delmap, recs, except, hash);
        lemma_tiles_order(before, before_values, recs, first, next, 1, i);
    }
    assert(after.linked_but(ht, after_values, after_delmap, rest, except));
    assert forall|hash: Seq<u8>| except != Some(hash) implies #[trigger] after.fetch(
        ht,
        after_values,
        hash,
    ) == before.fetch(ht, before_values, hash) by {
        if after.lookup(ht, hash) != NO_VALUE {
            lemma_linked_stored(after, ht, after_values, after_delmap, rest, except, hash);
            lemma_linked_stored(before, ht, before_values, before_delmap, recs, except, hash);
            let at = (before.lookup(ht, hash) - 1) as u64;
            assert(before.points(before_values, before_delmap, recs, hash, at));
            let i = choose|i: int| 0 <= i < recs.len() && recs[i] == at;
            assert(i != 0);
            assert(same_record(
                before,
                before_values,
                before_delmap,
                after,
                after_values,
                after_delmap,
                recs[i],
            ));
        }
    }
}

/// Whether the index answers in `after` as in `before`, but that it points for
/// `hash` to the record at `to` where it pointed to the record at `from`.
pub open spec fn repointed(
    before: Image,
    before_ht: Seq<([u8; 26], u64)>,
    after: Image,
    after_ht: Seq<([u8; 26], u64)>,
    hash: Seq<u8>,
    from: u64,
    to: u64,
) -> bool {
    forall|other: Seq<u8>|
        #[trigger] after.lookup(after_ht, other) == if other == hash && before.lookup(
            before_ht,
            other,
        ) == from + 1 {
            (to + 1) as u64
        } else {
            before.lookup(before_ht, other)
        }
}

/// Moving the first record of the log, which is live, to the end of the log, and
/// letting the index point to its new place, leaves a linked engine linked, and
/// holding for every hash what it held.
#[verifier::spinoff_prover]
pub proof fn lemma_linked_moved(
    before: Image,
    before_ht: Seq<([u8; 26], u64)>,
    before_values: Map<u64, u64>,
    before_delmap: Map<u64, u64>,
    after: Image,
    after_ht: Seq<([u8; 26], u64)>,
    after_values: Map<u64, u64>,
    after_delmap: Map<u64, u64>,
    recs: Seq<u64>,
    except: Option<Seq<u8>>,
)
    requires
        before.linked_but(before_ht, before_values, before_delmap, recs, except),
        recs.len() > 0,
        before.record_live(before_values, before_delmap, before.first_logical()),
        after.first_logical() == before.record_end(before_values, before.first_logical()),
        after.next_logical() == before.next_logical() + 128 * before.record_slots(
            before_values,
            before.first_logical(),
        ),
        after.next_logical() + 1 <= u64::MAX,
        forall|i: int|
            0 <= i < before.record_slots(before_values, before.first_logical())
                ==> after.value_at(after_values, #[trigger] slot_of(before.next_logical(), i))
                == before.value_at(before_values, slot_of(before.first_logical(), i))
                && after.is_live(after_delmap, slot_of(before.next_logical(), i)),
        slots_kept(
            before,
            before_values,
            after,
            after_values,
            after.first_logical(),
            before.next_logical(),
        ),
        marks_kept(
            before,
            before_delmap,
            after,
            after_delmap,
            after.first_logical(),
            before.next_logical(),
        ),
        repointed(
            before,
            before_ht,
            after,
            after_ht,
            before.hash_at(before_values, before.first_logical()),
            before.first_logical(),
            before.next_logical(),
        ),
    ensures
        after.linked_but(
            after_ht,
            after_values,
            after_delmap,
            recs.subrange(1, recs.len() as int).push(before.next_logical()),
            except,
        ),
        forall|hash: Seq<u8>|
            except != Some(hash) ==> #[trigger] after.fetch(after_ht, after_values, hash)
                == before.fetch(before_ht, before_values, hash),
{
    let first = before.first_logical();
    let next = before.next_logical();
    let n = before.record_slots(before_values, first);
    let rest = recs.subrange(1, recs.len() as int);
    let last = rest.push(next);
    let moved = after.first_logical();
    let owner = before.hash_at(before_values, first);
    lemma_tiles_order(before, before_values, recs, first, next, 0, 0);
    assert(RECORD_HEADER <= before.record_length_at(before_values, recs[0]));
    if recs.len() > 1 {
        assert(before.record_end(before_values, recs[0]) == recs[1]);
    }
    lemma_recs_kept(
        before,
        before_values,
        before_delmap,
        after,
        after_values,
        after_delmap,
        recs,
        first,
        next,
        1,
        moved,
    );
    assert forall|i: int| 1 <= i < recs.len() implies after.value_at(
        after_values,
        #[trigger] recs[i],
    ) == before.value_at(before_values, recs[i]) by {
        assert(same_record(
            before,
            before_values,
            before_delmap,
            after,
            after_values,
            after_delmap,
            recs[i],
        ));
    }
    lemma_tiles_rest(before, before_values, after, after_values, recs, first, next);
    // the copy is the record
    assert(slot_of(next, 0) == next && slot_of(first, 0) == first);
    assert(after.value_at(after_values, next) == before.value_at(before_values, first));
    lemma_run_moved(before, before_values, after, after_values, first, next, n);
    assert(after.payload_at(after_values, next) == before.payload_at(before_values, first));
    assert(after.record_live(after_values, after_delmap, next));
    assert forall|i: int| 0 <= i < rest.len() implies after.value_at(
        after_values,
        #[trigger] rest[i],
    ) == after.value_at(after_values, rest[i]) by {}
    lemma_tiles_push(
        after,
        after_values,
        after,
        after_values,
        rest,
        moved as u64,
        next,
        after.next_logical(),
    );
    assert forall|i: int| 0 <= i < last.len() implies after.record_live(
        after_values,
        after_delmap,
        #[trigger] last[i],
    ) || after.record_dead(after_values, after_delmap, last[i]) by {
        if i < rest.len() {
            assert(last[i] == recs[i + 1]);
            assert(same_record(
                before,
                before_values,
                before_delmap,
                after,
                after_values,
                after_delmap,
                recs[i + 1],
            ));
        } else {
            assert(last[i] == next);
        }
    }
    assert forall|hash: Seq<u8>|
        (#[trigger] after.lookup(after_ht, hash)) != NO_VALUE && except != Some(
            hash,
        ) implies after.points(
        after_values,
        after_delmap,
        last,
        hash,
        (after.lookup(after_ht, hash) - 1) as u64,
    ) && after.payload_at(after_values, (after.lookup(after_ht, hash) - 1) as u64)
        == before.payload_at(before_values, (before.lookup(before_ht, hash) - 1) as u64) by {
        let at = (before.lookup(before_ht, hash) - 1) as u64;
        assert(before.lookup(before_ht, hash) != NO_VALUE);
        assert(before.points(before_values, before_delmap, recs, hash, at));
        let i = choose|i: int| 0 <= i < recs.len() && recs[i] == at;
        if i == 0 {
            assert(hash == owner);
            assert(last[rest.len() as int] == next);
        } else {
            assert(last[i - 1] == recs[i]);
            assert(same_record(
                before,
                before_values,
                before_delmap,
                after,
                after_values,
                after_delmap,
                recs[i],
            ));
        }
    }
    assert(after.linked_but(after_ht, after_values, after_delmap, last, except));
    assert forall|hash: Seq<u8>| except != Some(hash) implies #[trigger] after.fetch(
        after_ht,
        after_values,
        hash,
    ) == before.fetch(before_ht, before_values, hash) by {
        if after.lookup(after_ht, hash) != NO_VALUE {
            lemma_linked_stored(after, after_ht, after_values, after_delmap, last, except, hash);
            lemma_linked_stored(
                before,
                before_ht,
                before_values,
                before_delmap,
                recs,
                except,
                hash,
            );
        }
    }
}

/// Compacting the first record of the log of a linked engine, by moving it to the
/// end where it is live and by moving the start of the log past it where it is
/// deleted, leaves the engine linked, and holding for every hash what it held.
#[verifier::spinoff_prover]
pub proof fn lemma_record_compacted(
    before: Image,
    before_ht: Seq<([u8; 26], u64)>,
    before_values: Map<u64, u64>,
    before_delmap: Map<u64, u64>,
    after: Image,
    after_ht: Seq<([u8; 26], u64)>,
    after_values: Map<u64, u64>,
    after_delmap: Map<u64, u64>,
    recs: Seq<u64>,
    except: Option<Seq<u8>>,
)
    requires
        before.linked_but(before_ht, before_values, before_delmap, recs, except),
        before.first_logical() < before.next_logical(),
        after.next_logical() + 1 <= u64::MAX,
        crate::moving::run_live(
            before,
            before_delmap,
            before.record_slots(before_values, before.first_logical()) as int,
        ) ==> crate::moving::moved_live(
            before,
            before_values,
            before_delmap,
            after,
            after_values,
            after_delmap,
            before.record_slots(before_values, before.first_logical()) as int,
        ) && repointed(
            before,
            before_ht,
            after,
            after_ht,
            before.hash_at(before_values, before.first_logical()),
            before.first_logical(),
            before.next_logical(),
        ),
        crate::moving::run_dead(
            before,
            before_delmap,
            before.record_slots(before_values, before.first_logical()) as int,
        ) ==> crate::moving::moved_dead(
            before,
            before_values,
            before_delmap,
            after,
            after_values,
            after_delmap,
            before.record_slots(before_values, before.first_logical()) as int,
        ) && after_ht == before_ht && (forall|hash: Seq<u8>|
            #[trigger] after.lookup(after_ht, hash) == before.lookup(before_ht, hash)),
    ensures
        exists|last: Seq<u64>|
            #[trigger] after.linked_but(after_ht, after_values, after_delmap, last, except),
        forall|hash: Seq<u8>|
            except != Some(hash) ==> #[trigger] after.fetch(after_ht, after_values, hash)
                == before.fetch(before_ht, before_values, hash),
{
    let first = before.first_logical();
    assert(recs.len() > 0);
    assert(recs[0] == first);
    assert(RECORD_HEADER <= before.record_length_at(before_values, recs[0]));
    assert(before.record_live(before_values, before_delmap, recs[0]) || before.record_dead(
        before_values,
        before_delmap,
        recs[0],
    ));
    if before.record_live(before_values, before_delmap, first) {
        lemma_linked_moved(
            before,
            before_ht,
            before_values,
            before_delmap,
            after,
            after_ht,
            after_values,
            after_delmap,
            recs,
            except,
        );
        assert(after.linked_but(
            after_ht,
            after_values,
            after_delmap,
            recs.subrange(1, recs.len() as int).push(before.next_logical()),
            except,
        ));
    } else {
        lemma_linked_dropped(
            before,
            before_ht,
            before_values,
            before_delmap,
            after,
            after_values,
            after_delmap,
            recs,
            except,
        );
        assert(after.linked_but(
            after_ht,
            after_values,
            after_delmap,
            recs.subrange(1, recs.len() as int),
            except,
        ));
    }
}

} // verus!
