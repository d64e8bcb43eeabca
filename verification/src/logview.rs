use vstd::prelude::*;
use crate::frame::agree_except;
use crate::image::Image;
use crate::layout::DELMAP_SPAN;
use crate::layout::DELMAPS_IN_SECTOR;
use crate::layout::ENTRY_SPAN;
use crate::layout::FIRST_SLOT_OFFSET;
use crate::layout::SECTOR_SIZE;
use crate::layout::VALUE_SIZE;
use crate::layout::VALUE_SPAN;
use crate::layout::VALUES_IN_SECTOR;
use crate::logframe::mark_between;
use crate::logframe::marks_kept;
use crate::logframe::slot_between;
use crate::logframe::slots_kept;
use crate::logshape::delmap_follows;
use crate::logshape::lemma_delmap_span;
use crate::logshape::lemma_span_floor_monotone;
use crate::logshape::lemma_value_span;
use crate::logshape::span_floor;
use crate::logshape::values_follow;

verus! {

/// What the sectors of the value log and of the bitmap hold: for each sector of the
/// two directories, by its key, its slots or its entries by their number.
#[verifier::opaque]
pub open spec fn log_of(image: Image, values: Map<u64, u64>, delmap: Map<u64, u64>) -> (
    Map<(u64, int), Seq<u8>>,
    Map<(u64, int), Seq<u8>>,
) {
    (
        Map::new(
            |k: (u64, int)| values.contains_key(k.0) && 0 <= k.1 < VALUES_IN_SECTOR,
            |k: (u64, int)| image.read((values[k.0] + 128 * k.1) as u64, 128),
        ),
        Map::new(
            |k: (u64, int)| delmap.contains_key(k.0) && 0 <= k.1 < DELMAPS_IN_SECTOR,
            |k: (u64, int)| image.read((delmap[k.0] + 32 * k.1) as u64, 32),
        ),
    )
}

/// Whether the sectors of the log and of the bitmap hold in `after` what they hold in
/// `before`.
pub open spec fn log_kept(
    before: Image,
    after: Image,
    values: Map<u64, u64>,
    delmap: Map<u64, u64>,
) -> bool {
    log_of(after, values, delmap) == log_of(before, values, delmap)
}

/// Whether none of the offsets in `touched` lies among the slots of a sector of the
/// log or among the entries of a sector of the bitmap.
pub open spec fn spares_slots(touched: Set<u64>, values: Map<u64, u64>, delmap: Map<u64, u64>) -> bool {
    &&& forall|key: u64, at: u64|
        #![trigger values.contains_key(key), touched.contains(at)]
        values.contains_key(key) && values[key] <= at < values[key] - VALUE_SIZE + SECTOR_SIZE
            ==> !touched.contains(at)
    &&& forall|key: u64, at: u64|
        #![trigger delmap.contains_key(key), touched.contains(at)]
        delmap.contains_key(key) && delmap[key] <= at < delmap[key] - FIRST_SLOT_OFFSET
            + SECTOR_SIZE ==> !touched.contains(at)
}

/// The log is kept by changes that spare its slots and the entries of its bitmap.
pub proof fn lemma_log_kept(
    before: Image,
    after: Image,
    touched: Set<u64>,
    values: Map<u64, u64>,
    delmap: Map<u64, u64>,
)
    requires
        before.dirs_ok(values, delmap),
        agree_except(before, after, touched),
        spares_slots(touched, values, delmap),
    ensures
        log_kept(before, after, values, delmap),
{
    reveal(log_of);
    let a = log_of(after, values, delmap);
    let b = log_of(before, values, delmap);
    assert forall|k: (u64, int)| #[trigger] a.0.contains_key(k) implies a.0[k] == b.0[k] by {
        assert(before.value_sector_ok(k.0, values[k.0]));
        let at = (values[k.0] + 128 * k.1) as u64;
        assert(!touched.contains(at));
        assert(after.read(at, 128) == before.read(at, 128));
    }
    assert(a.0 =~= b.0);
    assert forall|k: (u64, int)| #[trigger] a.1.contains_key(k) implies a.1[k] == b.1[k] by {
        assert(before.delmap_sector_ok(k.0, delmap[k.0]));
        let at = (delmap[k.0] + 32 * k.1) as u64;
        assert(!touched.contains(at));
        assert(after.read(at, 32) == before.read(at, 32));
    }
    assert(a.1 =~= b.1);
}

/// A log that is kept is kept the other way round.
pub proof fn lemma_kept_back(before: Image, after: Image, values: Map<u64, u64>, delmap: Map<u64, u64>)
    requires
        log_kept(before, after, values, delmap),
    ensures
        log_kept(after, before, values, delmap),
{
}

/// In a log that is kept every slot of the directory reads as before, and is live if
/// it was.
pub proof fn lemma_kept_slot(
    before: Image,
    after: Image,
    values: Map<u64, u64>,
    delmap: Map<u64, u64>,
    offset: u64,
)
    requires
        log_kept(before, after, values, delmap),
        offset % VALUE_SIZE == 0,
    ensures
        values.contains_key(span_floor(offset, VALUE_SPAN)) ==> after.value_at(values, offset)
            == before.value_at(values, offset),
        delmap.contains_key(span_floor(offset, DELMAP_SPAN)) ==> after.is_live(delmap, offset)
            == before.is_live(delmap, offset),
{
    reveal(log_of);
    lemma_value_span(offset);
    lemma_delmap_span(offset);
    let a = log_of(after, values, delmap);
    let b = log_of(before, values, delmap);
    if values.contains_key(span_floor(offset, VALUE_SPAN)) {
        let k = (span_floor(offset, VALUE_SPAN), (offset % VALUE_SPAN) as int / 128);
        assert(128 * k.1 == offset % VALUE_SPAN);
        assert(a.0.contains_key(k));
        assert(a.0[k] == b.0[k]);
    }
    if delmap.contains_key(span_floor(offset, DELMAP_SPAN)) {
        let k = (span_floor(offset, DELMAP_SPAN), (offset % DELMAP_SPAN) as int / (ENTRY_SPAN as int));
        assert(a.1.contains_key(k));
        assert(a.1[k] == b.1[k]);
    }
}

/// In a log that is kept the slots between its ends read as before, and are live as
/// before.
pub proof fn lemma_kept_log(
    before: Image,
    after: Image,
    values: Map<u64, u64>,
    delmap: Map<u64, u64>,
    first: u64,
    end: u64,
    value_place: u64,
    delmap_place: u64,
)
    requires
        log_kept(before, after, values, delmap),
        values_follow(first, end, value_place, values),
        delmap_follows(first, end, delmap_place, delmap),
    ensures
        slots_kept(before, values, after, values, first, end),
        marks_kept(before, delmap, after, delmap, first, end),
{
    reveal(slot_between);
    reveal(mark_between);
    reveal(values_follow);
    reveal(delmap_follows);
    assert forall|offset: u64|
        #![trigger after.value_at(values, offset)]
        slot_between(offset, first, end) implies after.value_at(values, offset)
        == before.value_at(values, offset) by {
        lemma_value_span(offset);
        lemma_span_floor_monotone(first, first, VALUE_SPAN);
        if first <= offset {
            lemma_span_floor_monotone(first, offset, VALUE_SPAN);
        } else {
            lemma_span_floor_monotone(span_floor(first, VALUE_SPAN), offset, VALUE_SPAN);
            crate::logshape::lemma_span_floor_greatest(
                span_floor(first, VALUE_SPAN),
                offset,
                VALUE_SPAN,
            );
        }
        lemma_kept_slot(before, after, values, delmap, offset);
    }
    assert forall|offset: u64|
        #![trigger after.is_live(delmap, offset)]
        mark_between(offset, first, end) && offset != u64::MAX implies after.is_live(delmap, offset)
        == before.is_live(delmap, offset) by {
        lemma_delmap_span(offset);
        lemma_span_floor_monotone(first, first, DELMAP_SPAN);
        crate::logshape::lemma_span_floor_greatest(
            span_floor(first, DELMAP_SPAN),
            offset,
            DELMAP_SPAN,
        );
        lemma_kept_slot(before, after, values, delmap, offset);
    }
}

} // verus!
