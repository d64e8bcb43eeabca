use vstd::prelude::*;
use crate::image::Image;
use crate::indexlaws::index_with;
use crate::indexlaws::index_without;
use crate::linked::marks_kept_outside;
use crate::linked::repointed;
use crate::linked::slot_of;
use crate::logframe::marks_kept;
use crate::logframe::slots_kept;
use crate::moving::compacted;
use crate::moving::moved_dead;
use crate::moving::moved_live;
use crate::moving::run_dead;
use crate::moving::run_live;
use crate::record::framed;
use crate::record::record_len;
use crate::record::slots_for;

verus! {

/// What the operations on keys and values work on: the image of the file, the three
/// directories, and the credit for compaction.
pub struct State {
    pub image: Image,
    pub ht: Seq<([u8; 26], u64)>,
    pub values: Map<u64, u64>,
    pub delmap: Map<u64, u64>,
    pub credit: int,
}

/// Whether `after` is `before` with the record of `value` under `hash` appended to the
/// log and entered into the index: the log ends behind the record, whose slots hold
/// the framed record and are live; each slot cost two units of credit; the index
/// points for the hash to the start of the record, and for every other hash to what
/// it pointed to; and the slots that the log held are kept.
pub open spec fn written(before: State, after: State, hash: Seq<u8>, value: Seq<u8>) -> bool {
    let start = before.image.next_logical();
    let count = slots_for(record_len(value.len()));
    &&& after.image.first_logical() == before.image.first_logical()
    &&& after.image.next_logical() == start + 128 * count
    &&& after.credit == before.credit - 2 * count
    &&& index_with(before.image, before.ht, after.image, after.ht, hash, (start + 1) as u64)
    &&& after.image.value_at(after.values, start) == framed(hash, value).subrange(0, 128)
    &&& after.image.slots_from(after.values, start, count) == framed(hash, value)
    &&& forall|i: int|
        0 <= i < count ==> after.image.is_live(after.delmap, #[trigger] slot_of(start, i))
    &&& slots_kept(
        before.image,
        before.values,
        after.image,
        after.values,
        before.image.first_logical(),
        start,
    )
    &&& marks_kept(
        before.image,
        before.delmap,
        after.image,
        after.delmap,
        before.image.first_logical(),
        start,
    )
}

/// Whether `after` is `before` with the record at `offset` marked as deleted: where a
/// record can be read there, its slots are marked, and each earned four units of
/// credit; else nothing changed. Directories, ends of the log, what the slots hold
/// and what the index finds are kept.
pub open spec fn record_marked(before: State, after: State, offset: u64) -> bool {
    &&& after.ht == before.ht
    &&& after.values == before.values
    &&& after.delmap == before.delmap
    &&& after.image.first_logical() == before.image.first_logical()
    &&& after.image.next_logical() == before.image.next_logical()
    &&& forall|hash: Seq<u8>|
        #[trigger] after.image.lookup(after.ht, hash) == before.image.lookup(before.ht, hash)
    &&& slots_kept(
        before.image,
        before.values,
        after.image,
        after.values,
        before.image.first_logical(),
        before.image.next_logical(),
    )
    &&& if before.image.record_ok(before.values, offset) {
        &&& after.credit == before.credit + 4 * before.image.record_slots(before.values, offset)
        &&& after.image.record_dead(after.values, after.delmap, offset)
        &&& marks_kept_outside(
            before.image,
            before.delmap,
            after.image,
            after.delmap,
            before.image.first_logical(),
            before.image.next_logical(),
            offset as int,
            before.image.record_end(before.values, offset),
        )
    } else {
        &&& after.credit == before.credit
        &&& after.image == before.image
    }
}

/// Whether `after` is `before` with the record at the start of the log compacted: the
/// start of the log has moved past the slots of the record, each for one unit of
/// credit; where the record was live, its slots stand at the end of the log and the
/// index points to them; where it was deleted, the end of the log and the index are
/// as they were.
pub open spec fn record_moved(before: State, after: State) -> bool {
    let head = before.image.head_slots(before.values);
    let first = before.image.first_logical();
    let next = before.image.next_logical();
    &&& before.image.compactable(before.values)
    &&& after.image.first_logical() == first + 128 * head
    &&& after.credit == before.credit - head
    &&& next <= after.image.next_logical() <= next + 128 * head
    &&& compacted(
        before.image,
        before.values,
        before.delmap,
        after.image,
        after.values,
        after.delmap,
    )
    &&& run_live(before.image, before.delmap, head) ==> {
        &&& moved_live(
            before.image,
            before.values,
            before.delmap,
            after.image,
            after.values,
            after.delmap,
            head,
        )
        &&& repointed(
            before.image,
            before.ht,
            after.image,
            after.ht,
            before.image.hash_at(before.values, first),
            first,
            next,
        )
    }
    &&& run_dead(before.image, before.delmap, head) ==> {
        &&& moved_dead(
            before.image,
            before.values,
            before.delmap,
            after.image,
            after.values,
            after.delmap,
            head,
        )
        &&& after.ht == before.ht
        &&& forall|hash: Seq<u8>|
            #[trigger] after.image.lookup(after.ht, hash) == before.image.lookup(before.ht, hash)
    }
}

/// The credit that is left to spend, none where the credit is a debt.
pub open spec fn to_spend(credit: int) -> nat {
    if credit > 0 {
        credit as nat
    } else {
        0
    }
}

/// Whether `after` is what compaction makes of `before`: nothing where no credit is
/// left; else, where the record at the start of the log cannot be compacted, the
/// same with the credit dropped; else what compaction makes of `before` with that
/// record compacted.
pub open spec fn compacts(before: State, after: State) -> bool
    decreases to_spend(before.credit),
{
    if before.credit <= 0 {
        after == before
    } else if !before.image.compactable(before.values) {
        after == (State { credit: 0, ..before })
    } else {
        exists|mid: State| #[trigger] record_moved(before, mid) && compacts(mid, after)
    }
}

/// Whether `after` is `before` with the record at `offset` deleted from the log: its
/// slots marked as deleted, and the log compacted.
pub open spec fn deleted_at(before: State, after: State, offset: u64) -> bool {
    exists|marked: State| #[trigger] record_marked(before, marked, offset) && compacts(marked, after)
}

/// Whether `after` is `before` with `value` written under `hash`, which the index
/// held for the record at `gone`: the new record appended and entered into the
/// index, and the old one deleted from the log.
pub open spec fn overwritten(
    before: State,
    after: State,
    hash: Seq<u8>,
    value: Seq<u8>,
    gone: u64,
) -> bool {
    exists|mid: State| #[trigger] written(before, mid, hash, value) && deleted_at(mid, after, gone)
}

/// Whether `after` is `before` with `hash` taken out of the index: the search for it
/// finds nothing, the search for any other hash what it found, and the log, the
/// directories and the credit are as they were.
pub open spec fn unindexed(before: State, after: State, hash: Seq<u8>) -> bool {
    &&& after.ht == before.ht
    &&& after.values == before.values
    &&& after.delmap == before.delmap
    &&& after.credit == before.credit
    &&& after.image.first_logical() == before.image.first_logical()
    &&& after.image.next_logical() == before.image.next_logical()
    &&& index_without(before.image, after.image, before.ht, hash)
    &&& slots_kept(
        before.image,
        before.values,
        after.image,
        after.values,
        before.image.first_logical(),
        before.image.next_logical(),
    )
    &&& marks_kept(
        before.image,
        before.delmap,
        after.image,
        after.delmap,
        before.image.first_logical(),
        before.image.next_logical(),
    )
}

/// Whether `after` is `before` with the value under `hash`, which the index held for
/// the record at `gone`, deleted: the record deleted from the log, and the hash
/// taken out of the index.
pub open spec fn deleted(before: State, after: State, hash: Seq<u8>, gone: u64) -> bool {
    exists|mid: State| #[trigger] deleted_at(before, mid, gone) && unindexed(mid, after, hash)
}

/// Appending the framed record and then entering its start into the index writes the
/// value.
#[verifier::spinoff_prover]
pub proof fn lemma_written(
    before: State,
    appended: State,
    after: State,
    hash: Seq<u8>,
    value: Seq<u8>,
)
    requires
        before.image.first_logical() % 128 == 0,
        before.image.next_logical() % 128 == 0,
        before.image.first_logical() <= before.image.next_logical(),
        before.image.next_logical() + 128 * slots_for(record_len(value.len())) + 1 <= u64::MAX,
        appended.ht == before.ht,
        appended.image.first_logical() == before.image.first_logical(),
        appended.image.next_logical() == before.image.next_logical() + 128 * slots_for(
            record_len(value.len()),
        ),
        appended.credit == before.credit - 2 * slots_for(record_len(value.len())),
        forall|other: Seq<u8>|
            #[trigger] appended.image.lookup(appended.ht, other) == before.image.lookup(
                before.ht,
                other,
            ),
        appended.image.value_at(appended.values, before.image.next_logical()) == framed(
            hash,
            value,
        ).subrange(0, 128),
        appended.image.slots_from(
            appended.values,
            before.image.next_logical(),
            slots_for(record_len(value.len())),
        ) == framed(hash, value),
        forall|i: int|
            0 <= i < slots_for(record_len(value.len())) ==> appended.image.is_live(
                appended.delmap,
                #[trigger] slot_of(before.image.next_logical(), i),
            ),
        slots_kept(
            before.image,
            before.values,
            appended.image,
            appended.values,
            before.image.first_logical(),
            before.image.next_logical(),
        ),
        marks_kept(
            before.image,
            before.delmap,
            appended.image,
            appended.delmap,
            before.image.first_logical(),
            before.image.next_logical(),
        ),
        after.values == appended.values,
        after.delmap == appended.delmap,
        after.credit == appended.credit,
        after.image.first_logical() == appended.image.first_logical(),
        after.image.next_logical() == appended.image.next_logical(),
        index_with(
            appended.image,
            appended.ht,
            after.image,
            after.ht,
            hash,
            (before.image.next_logical() + 1) as u64,
        ),
        slots_kept(
            appended.image,
            appended.values,
            after.image,
            after.values,
            appended.image.first_logical(),
            appended.image.next_logical(),
        ),
        marks_kept(
            appended.image,
            appended.delmap,
            after.image,
            after.delmap,
            appended.image.first_logical(),
            appended.image.next_logical(),
        ),
    ensures
        written(before, after, hash, value),
{
    let first = before.image.first_logical();
    let start = before.image.next_logical();
    let end = appended.image.next_logical();
    let count = slots_for(record_len(value.len()));
    crate::logframe::lemma_slots_kept_shorter(
        appended.image,
        appended.values,
        after.image,
        after.values,
        first,
        end,
        start,
    );
    crate::logframe::lemma_slots_kept_twice(
        before.image,
        before.values,
        appended.image,
        appended.values,
        after.image,
        after.values,
        first,
        start,
    );
    crate::logframe::lemma_marks_kept_within(
        appended.image,
        appended.delmap,
        after.image,
        after.delmap,
        first,
        end,
        first,
        start,
        u64::MAX,
    );
    crate::logframe::lemma_marks_kept_twice(
        before.image,
        before.delmap,
        appended.image,
        appended.delmap,
        after.image,
        after.delmap,
        first,
        start,
    );
    if count > 0 {
        crate::logframe::lemma_slot_between(start, first, end);
        assert(after.image.value_at(after.values, start) == appended.image.value_at(
            appended.values,
            start,
        ));
    }
    crate::records::lemma_run_kept(
        appended.image,
        appended.values,
        after.image,
        after.values,
        first,
        end,
        start,
        count,
    );
    assert forall|i: int| 0 <= i < count implies after.image.is_live(
        after.delmap,
        #[trigger] slot_of(start, i),
    ) by {
        crate::logframe::lemma_slot_between(slot_of(start, i), first, end);
        assert(appended.image.is_live(appended.delmap, slot_of(start, i)));
    }
}

/// Where the credit that is left after the old record was marked is no credit but
/// a debt, overwriting a value moves nothing: the log starts where it started and
/// ends behind the new record, the credit is that debt, and the index points for
/// the hash to the new record.
#[verifier::spinoff_prover]
pub proof fn lemma_overwritten_cheap(
    before: State,
    after: State,
    hash: Seq<u8>,
    value: Seq<u8>,
    gone: u64,
)
    requires
        overwritten(before, after, hash, value, gone),
        before.image.record_ok(before.values, gone),
        before.image.next_logical() % 128 == 0,
        before.credit - 2 * slots_for(record_len(value.len())) + 4 * before.image.record_slots(
            before.values,
            gone,
        ) <= 0,
    ensures
        after.image.first_logical() == before.image.first_logical(),
        after.image.next_logical() == before.image.next_logical() + 128 * slots_for(
            record_len(value.len()),
        ),
        after.credit == before.credit - 2 * slots_for(record_len(value.len())) + 4
            * before.image.record_slots(before.values, gone),
        after.image.lookup(after.ht, hash) == before.image.next_logical() + 1,
{
    let mid = choose|mid: State| #[trigger]
        written(before, mid, hash, value) && deleted_at(mid, after, gone);
    let marked = choose|marked: State| #[trigger]
        record_marked(mid, marked, gone) && compacts(marked, after);
    crate::logframe::lemma_slot_between(
        gone,
        before.image.first_logical(),
        before.image.next_logical(),
    );
    assert(mid.image.value_at(mid.values, gone) == before.image.value_at(before.values, gone));
    assert(mid.image.record_ok(mid.values, gone));
    lemma_compacts_nothing(marked, after);
}

/// Compaction without credit leaves everything as it is.
pub proof fn lemma_compacts_nothing(before: State, after: State)
    requires
        compacts(before, after),
        before.credit <= 0,
    ensures
        after == before,
{
}

/// Compaction can start with the record at the start of the log.
pub proof fn lemma_compacts_first(before: State, mid: State, after: State)
    requires
        before.credit > 0,
        record_moved(before, mid),
        compacts(mid, after),
    ensures
        compacts(before, after),
{
}

} // verus!
