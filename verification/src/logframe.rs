use vstd::prelude::*;
use crate::frame::agree_except;
use crate::image::Image;
use crate::layout::DELMAP_SPAN;
use crate::layout::ENTRY_SPAN;
use crate::layout::FIRST_SECTOR_OFFSET;
use crate::layout::FIRST_SLOT_OFFSET;
use crate::layout::is_sector_base;
use crate::layout::SECTOR_SIZE;
use crate::layout::VALUE_SIZE;
use crate::layout::VALUE_SPAN;
use crate::logshape::bit_is_set;
use crate::logshape::delmap_follows;
use crate::logshape::lemma_entry_where;
use crate::logshape::lemma_slot_where;
use crate::logshape::span_floor;
use crate::logshape::values_follow;
use crate::sectors::lemma_sectors_apart;

verus! {

/// Whether `offset` is a slot of the log between the start of the stretch that holds
/// `first` and `end`.
#[verifier::opaque]
pub open spec fn slot_between(offset: u64, first: u64, end: u64) -> bool {
    offset % VALUE_SIZE == 0 && span_floor(first, VALUE_SPAN) <= offset < end
}

/// Whether `offset` is a slot of the log between the start of the stretch of the
/// bitmap that covers `first` and `end`.
#[verifier::opaque]
pub open spec fn mark_between(offset: u64, first: u64, end: u64) -> bool {
    offset % VALUE_SIZE == 0 && span_floor(first, DELMAP_SPAN) <= offset < end
}

/// A slot of the log from `first` on and before `end` lies between them.
pub proof fn lemma_slot_between(offset: u64, first: u64, end: u64)
    requires
        offset % VALUE_SIZE == 0,
        first <= offset < end,
    ensures
        slot_between(offset, first, end),
        mark_between(offset, first, end),
{
    reveal(slot_between);
    reveal(mark_between);
    crate::logshape::lemma_span_floor_monotone(first, offset, VALUE_SPAN);
    crate::logshape::lemma_span_floor_monotone(first, offset, DELMAP_SPAN);
}

/// Whether every slot of the log between `first` and `end` reads in `after` as it did
/// in `before`.
pub open spec fn slots_kept(
    before: Image,
    before_values: Map<u64, u64>,
    after: Image,
    after_values: Map<u64, u64>,
    first: u64,
    end: u64,
) -> bool {
    forall|offset: u64|
        #![trigger after.value_at(after_values, offset)]
        slot_between(offset, first, end) ==> after.value_at(after_values, offset)
            == before.value_at(before_values, offset)
}

/// Whether every slot of the log between `first` and `end`, but the one at
/// `except`, is live in `after` exactly if it was live in `before`.
pub open spec fn marks_kept_but(
    before: Image,
    before_delmap: Map<u64, u64>,
    after: Image,
    after_delmap: Map<u64, u64>,
    first: u64,
    end: u64,
    except: u64,
) -> bool {
    forall|offset: u64|
        #![trigger after.is_live(after_delmap, offset)]
        mark_between(offset, first, end) && offset != except ==> after.is_live(
            after_delmap,
            offset,
        ) == before.is_live(before_delmap, offset)
}

/// Whether every slot of the log between `first` and `end` is live in `after`
/// exactly if it was live in `before`.
pub open spec fn marks_kept(
    before: Image,
    before_delmap: Map<u64, u64>,
    after: Image,
    after_delmap: Map<u64, u64>,
    first: u64,
    end: u64,
) -> bool {
    marks_kept_but(before, before_delmap, after, after_delmap, first, end, u64::MAX)
}

/// Whether the directory `more` holds every entry of the directory `fewer`.
pub open spec fn extends(fewer: Map<u64, u64>, more: Map<u64, u64>) -> bool {
    forall|key: u64| #[trigger] fewer.contains_key(key) ==> more.contains_key(key) && more[key]
        == fewer[key]
}

/// Whether every sector of the directory of the value log is sound.
pub open spec fn value_sectors_ok(image: Image, values: Map<u64, u64>) -> bool {
    forall|key: u64| #[trigger]
        values.contains_key(key) ==> image.value_sector_ok(key, values[key])
}

/// Whether every sector of the directory of the bitmap is sound.
pub open spec fn delmap_sectors_ok(image: Image, delmap: Map<u64, u64>) -> bool {
    forall|key: u64| #[trigger]
        delmap.contains_key(key) ==> image.delmap_sector_ok(key, delmap[key])
}

/// The place of a slot of the log lies within its sector, behind the header.
#[verifier::spinoff_prover]
pub proof fn lemma_place_in_sector(
    image: Image,
    values: Map<u64, u64>,
    first: u64,
    end: u64,
    cursor: u64,
    offset: u64,
)
    requires
        values_follow(first, end, cursor, values),
        value_sectors_ok(image, values),
        slot_between(offset, first, end),
    ensures
        values.contains_key(span_floor(offset, VALUE_SPAN)),
        image.value_sector_ok(span_floor(offset, VALUE_SPAN), values[span_floor(offset, VALUE_SPAN)]),
        image.slot_place(values, offset) == values[span_floor(offset, VALUE_SPAN)] + offset
            % VALUE_SPAN,
        values[span_floor(offset, VALUE_SPAN)] <= image.slot_place(values, offset),
        image.slot_place(values, offset) + VALUE_SIZE <= values[span_floor(offset, VALUE_SPAN)]
            - VALUE_SIZE + SECTOR_SIZE,
        image.slot_place(values, offset) + VALUE_SIZE <= image.file_size(),
        (image.slot_place(values, offset) - values[span_floor(offset, VALUE_SPAN)]) % 128 == 0,
{
    reveal(slot_between);
    lemma_slot_where(first, end, cursor, values, offset);
    let key = span_floor(offset, VALUE_SPAN);
    assert(image.value_sector_ok(key, values[key]));
}

/// Two different slots of the log have different places.
#[verifier::spinoff_prover]
pub proof fn lemma_places_differ(
    image: Image,
    values: Map<u64, u64>,
    first: u64,
    end: u64,
    cursor: u64,
    a: u64,
    b: u64,
)
    requires
        values_follow(first, end, cursor, values),
        value_sectors_ok(image, values),
        slot_between(a, first, end),
        slot_between(b, first, end),
        a != b,
    ensures
        image.slot_place(values, a) != image.slot_place(values, b),
{
    reveal(slot_between);
    lemma_place_in_sector(image, values, first, end, cursor, a);
    lemma_place_in_sector(image, values, first, end, cursor, b);
    lemma_slot_where(first, end, cursor, values, a);
    lemma_slot_where(first, end, cursor, values, b);
    let ka = span_floor(a, VALUE_SPAN);
    let kb = span_floor(b, VALUE_SPAN);
    if ka != kb {
        let base_a = (values[ka] - VALUE_SIZE) as u64;
        let base_b = (values[kb] - VALUE_SIZE) as u64;
        assert(image.num(base_a) == ka);
        assert(image.num(base_b) == kb);
        lemma_sectors_apart(base_a, base_b);
    }
}

/// The slots of the log read as before after a change that spared their places.
#[verifier::spinoff_prover]
pub proof fn lemma_slots_kept(
    before: Image,
    before_values: Map<u64, u64>,
    after: Image,
    after_values: Map<u64, u64>,
    first: u64,
    end: u64,
    cursor: u64,
    touched: Set<u64>,
)
    requires
        values_follow(first, end, cursor, before_values),
        value_sectors_ok(before, before_values),
        extends(before_values, after_values),
        agree_except(before, after, touched),
        forall|offset: u64|
            slot_between(offset, first, end) ==> !touched.contains(
                #[trigger] before.slot_place(before_values, offset),
            ),
    ensures
        slots_kept(before, before_values, after, after_values, first, end),
{
    reveal(slot_between);
    assert forall|offset: u64|
        #![trigger after.value_at(after_values, offset)]
        slot_between(offset, first, end) implies after.value_at(after_values, offset)
        == before.value_at(before_values, offset) by {
        lemma_place_in_sector(before, before_values, first, end, cursor, offset);
        let place = before.slot_place(before_values, offset);
        assert(!touched.contains(place));
        assert(after.slot_place(after_values, offset) == place);
        assert(after.read(place, 128) == before.read(place, 128));
    }
}

/// The places of the slots of the log are none of the header fields, and lie in no
/// sector that is none of the log's.
#[verifier::spinoff_prover]
pub proof fn lemma_places_spared(
    image: Image,
    values: Map<u64, u64>,
    first: u64,
    end: u64,
    cursor: u64,
    other: u64,
    offset: u64,
)
    requires
        values_follow(first, end, cursor, values),
        value_sectors_ok(image, values),
        slot_between(offset, first, end),
        is_sector_base(other),
        forall|key: u64| #[trigger] values.contains_key(key) ==> values[key] - VALUE_SIZE != other,
    ensures
        image.slot_place(values, offset) >= FIRST_SECTOR_OFFSET + VALUE_SIZE,
        !(other <= image.slot_place(values, offset) < other + SECTOR_SIZE),
        image.slot_place(values, offset) != other + 48,
        image.slot_place(values, offset) != other + 56,
{
    reveal(slot_between);
    lemma_place_in_sector(image, values, first, end, cursor, offset);
    let key = span_floor(offset, VALUE_SPAN);
    let base = (values[key] - VALUE_SIZE) as u64;
    lemma_sectors_apart(base, other);
}

/// Appending a slot leaves the slots written before as they read.
#[verifier::spinoff_prover]
pub proof fn lemma_append_keeps_slots(
    before: Image,
    before_values: Map<u64, u64>,
    after: Image,
    after_values: Map<u64, u64>,
    first: u64,
    cur: u64,
    cursor: u64,
    moved: u64,
    at: u64,
    base: u64,
)
    requires
        first % VALUE_SIZE == 0,
        cur % VALUE_SIZE == 0,
        first <= cur,
        cur + VALUE_SIZE <= u64::MAX,
        values_follow(first, cur, cursor, before_values),
        value_sectors_ok(before, before_values),
        extends(before_values, after_values),
        cur % VALUE_SPAN != 0 ==> {
            &&& agree_except(before, after, set![at, 32u64])
            &&& at == before.slot_place(before_values, cur)
            &&& values_follow(first, (cur + VALUE_SIZE) as u64, moved, before_values)
        },
        cur % VALUE_SPAN == 0 ==> {
            &&& agree_except(before, after, crate::valuelog::append_touches(32, base))
            &&& is_sector_base(base)
            &&& forall|key: u64| #[trigger]
                before_values.contains_key(key) ==> before_values[key] - VALUE_SIZE != base
        },
    ensures
        slots_kept(before, before_values, after, after_values, first, cur),
{
    reveal(slot_between);
    if cur % VALUE_SPAN != 0 {
        let touched = set![at, 32u64];
        let end = (cur + VALUE_SIZE) as u64;
        crate::logshape::lemma_span_floor_monotone(first, cur, VALUE_SPAN);
        assert forall|offset: u64| slot_between(offset, first, cur) implies !touched.contains(
            #[trigger] before.slot_place(before_values, offset),
        ) by {
            lemma_place_in_sector(before, before_values, first, cur, cursor, offset);
            lemma_places_differ(before, before_values, first, end, moved, offset, cur);
            let key = span_floor(offset, VALUE_SPAN);
            assert(before.value_sector_ok(key, before_values[key]));
        }
        lemma_slots_kept(
            before,
            before_values,
            after,
            after_values,
            first,
            cur,
            cursor,
            touched,
        );
    } else {
        let touched = crate::valuelog::append_touches(32, base);
        assert forall|offset: u64| slot_between(offset, first, cur) implies !touched.contains(
            #[trigger] before.slot_place(before_values, offset),
        ) by {
            lemma_places_spared(before, before_values, first, cur, cursor, base, offset);
        }
        lemma_slots_kept(
            before,
            before_values,
            after,
            after_values,
            first,
            cur,
            cursor,
            touched,
        );
    }
}

/// A change within a sector that is none of the value log's, or to header fields
/// below the first sector, leaves the slots of the log as they read.
#[verifier::spinoff_prover]
pub proof fn lemma_elsewhere_keeps_slots(
    before: Image,
    after: Image,
    values: Map<u64, u64>,
    first: u64,
    end: u64,
    cursor: u64,
    touched: Set<u64>,
    base: u64,
)
    requires
        values_follow(first, end, cursor, values),
        value_sectors_ok(before, values),
        agree_except(before, after, touched),
        is_sector_base(base),
        forall|key: u64| #[trigger] values.contains_key(key) ==> values[key] - VALUE_SIZE != base,
        forall|offset: u64|
            touched.contains(offset) ==> offset < FIRST_SECTOR_OFFSET || base <= offset < base
                + SECTOR_SIZE,
    ensures
        slots_kept(before, values, after, values, first, end),
{
    reveal(slot_between);
    assert forall|offset: u64| slot_between(offset, first, end) implies !touched.contains(
        #[trigger] before.slot_place(values, offset),
    ) by {
        lemma_places_spared(before, values, first, end, cursor, base, offset);
    }
    lemma_slots_kept(before, values, after, values, first, end, cursor, touched);
}

/// What was kept over two steps was kept over both.
pub proof fn lemma_slots_kept_twice(
    a: Image,
    av: Map<u64, u64>,
    b: Image,
    bv: Map<u64, u64>,
    c: Image,
    cv: Map<u64, u64>,
    first: u64,
    end: u64,
)
    requires
        slots_kept(a, av, b, bv, first, end),
        slots_kept(b, bv, c, cv, first, end),
    ensures
        slots_kept(a, av, c, cv, first, end),
{
    reveal(slot_between);
    reveal(mark_between);
    assert forall|offset: u64|
        #![trigger c.value_at(cv, offset)]
        slot_between(offset, first, end) implies c.value_at(cv, offset) == a.value_at(
        av,
        offset,
    ) by {
        assert(b.value_at(bv, offset) == a.value_at(av, offset));
    }
}

/// A write to a header field leaves the slots of the log as they read.
#[verifier::spinoff_prover]
pub proof fn lemma_header_keeps_slots(
    before: Image,
    values: Map<u64, u64>,
    first: u64,
    end: u64,
    cursor: u64,
    offset: u64,
    data: Seq<u8>,
)
    requires
        values_follow(first, end, cursor, values),
        value_sectors_ok(before, values),
        0 < offset < FIRST_SECTOR_OFFSET,
    ensures
        slots_kept(before, values, before.put(offset, data), values, first, end),
{
    reveal(slot_between);
    let touched = set![offset];
    crate::frame::lemma_agree_put(before, offset, data);
    assert forall|at: u64| slot_between(at, first, end) implies !touched.contains(
        #[trigger] before.slot_place(values, at),
    ) by {
        lemma_place_in_sector(before, values, first, end, cursor, at);
        let key = span_floor(at, VALUE_SPAN);
        assert(before.value_sector_ok(key, values[key]));
    }
    lemma_slots_kept(before, values, before.put(offset, data), values, first, end, cursor, touched);
}

/// What was kept up to an end was kept up to any earlier end.
pub proof fn lemma_slots_kept_shorter(
    a: Image,
    av: Map<u64, u64>,
    b: Image,
    bv: Map<u64, u64>,
    first: u64,
    end: u64,
    earlier: u64,
)
    requires
        slots_kept(a, av, b, bv, first, end),
        earlier <= end,
    ensures
        slots_kept(a, av, b, bv, first, earlier),
{
    reveal(slot_between);
    reveal(mark_between);
}

/// The offsets that moving the start of the log may change: the header fields, and
/// the types and free-list pointers of sectors.
#[verifier::opaque]
pub open spec fn retire_touches() -> Set<u64> {
    Set::new(
        |offset: u64|
            offset < FIRST_SECTOR_OFFSET || (offset - FIRST_SECTOR_OFFSET) % (SECTOR_SIZE as int)
                == 48 || (offset - FIRST_SECTOR_OFFSET) % (SECTOR_SIZE as int) == 56,
    )
}

/// A header field is among the offsets that moving the start of the log may change.
pub proof fn lemma_header_retires(offset: u64)
    requires
        offset < FIRST_SECTOR_OFFSET,
    ensures
        set![offset].subset_of(retire_touches()),
        Set::<u64>::empty().subset_of(retire_touches()),
{
    reveal(slot_between);
    reveal(mark_between);
    reveal(retire_touches);
}

/// The image after a sector was freed agrees with the image before but for offsets
/// that moving the start of the log may change.
#[verifier::spinoff_prover]
pub proof fn lemma_freed_agrees(image: Image, base: u64)
    requires
        is_sector_base(base),
        base + SECTOR_SIZE <= u64::MAX,
    ensures
        agree_except(image, crate::upkeep::freed(image, base), retire_touches()),
{
    let one = image.put_num((base + 48) as u64, 0);
    let two = one.put_num((base + 56) as u64, image.free_head());
    let after = two.put_num(8, base);
    crate::frame::lemma_agree_put(image, (base + 48) as u64, crate::codec::num_bytes(0));
    crate::frame::lemma_agree_then_put(
        image,
        one,
        set![(base + 48) as u64],
        (base + 56) as u64,
        crate::codec::num_bytes(image.free_head()),
    );
    crate::frame::lemma_agree_then_put(
        image,
        two,
        set![(base + 48) as u64].insert((base + 56) as u64),
        8,
        crate::codec::num_bytes(base),
    );
    let touched = set![(base + 48) as u64].insert((base + 56) as u64).insert(8u64);
    assert(touched.subset_of(retire_touches())) by {
        reveal(retire_touches);
    }
    crate::frame::lemma_agree_widen(image, after, touched, retire_touches());
}

/// Moving the start of the log leaves the slots that stay in the log as they read.
/// `kept` is the directory of the value log after the move.
#[verifier::spinoff_prover]
pub proof fn lemma_retire_keeps_slots(
    before: Image,
    before_values: Map<u64, u64>,
    after: Image,
    kept: Map<u64, u64>,
    first: u64,
    end: u64,
    cursor: u64,
)
    requires
        values_follow(first, end, cursor, kept),
        value_sectors_ok(before, kept),
        extends(kept, before_values),
        agree_except(before, after, retire_touches()),
    ensures
        slots_kept(before, before_values, after, kept, first, end),
{
    reveal(slot_between);
    let touched = retire_touches();
    assert forall|offset: u64| slot_between(offset, first, end) implies !touched.contains(
        #[trigger] before.slot_place(kept, offset),
    ) by {
        reveal(retire_touches);
        lemma_place_in_sector(before, kept, first, end, cursor, offset);
        let key = span_floor(offset, VALUE_SPAN);
        assert(before.value_sector_ok(key, kept[key]));
        let base = (kept[key] - VALUE_SIZE) as u64;
        let place = before.slot_place(kept, offset);
        let rel = place - base;
        assert(128 <= rel < SECTOR_SIZE && rel % 128 == 0);
        assert((place - FIRST_SECTOR_OFFSET) % (SECTOR_SIZE as int) == rel);
    }
    lemma_slots_kept(before, kept, after, kept, first, end, cursor, touched);
    assert forall|offset: u64|
        #![trigger after.value_at(kept, offset)]
        slot_between(offset, first, end) implies after.value_at(kept, offset) == before.value_at(
        before_values,
        offset,
    ) by {
        lemma_slot_where(first, end, cursor, kept, offset);
    }
}

/// What was kept from a start on was kept from any later start on.
#[verifier::spinoff_prover]
pub proof fn lemma_slots_kept_later(
    a: Image,
    av: Map<u64, u64>,
    b: Image,
    bv: Map<u64, u64>,
    first: u64,
    later: u64,
    end: u64,
)
    requires
        slots_kept(a, av, b, bv, first, end),
        first <= later,
    ensures
        slots_kept(a, av, b, bv, later, end),
{
    reveal(slot_between);
    crate::logshape::lemma_span_floor_monotone(first, later, VALUE_SPAN);
}

/// The bit of the bitmap entry that stands for the slot at a logical offset.
pub open spec fn mark_bit(offset: u64) -> int {
    ((offset / VALUE_SIZE) % 208) as int
}

/// Setting or clearing one bit of a byte leaves the other bits as they are, and the
/// bit itself set or cleared.
pub proof fn lemma_bits(byte: u8, bit: u8, other: u8)
    requires
        bit < 8,
        other < 8,
    ensures
        (byte & !(1u8 << bit)) & (1u8 << bit) == 0,
        (byte | (1u8 << bit)) & (1u8 << bit) != 0,
        other != bit ==> (byte & !(1u8 << bit)) & (1u8 << other) == byte & (1u8 << other),
        other != bit ==> (byte | (1u8 << bit)) & (1u8 << other) == byte & (1u8 << other),
{
    assert((byte & !(1u8 << bit)) & (1u8 << bit) == 0) by (bit_vector)
        requires
            bit < 8,
    ;
    assert((byte | (1u8 << bit)) & (1u8 << bit) != 0) by (bit_vector)
        requires
            bit < 8,
    ;
    if other != bit {
        assert((byte & !(1u8 << bit)) & (1u8 << other) == byte & (1u8 << other)) by (bit_vector)
            requires
                bit < 8,
                other < 8,
                other != bit,
        ;
        assert((byte | (1u8 << bit)) & (1u8 << other) == byte & (1u8 << other)) by (bit_vector)
            requires
                bit < 8,
                other < 8,
                other != bit,
        ;
    }
}

/// A bitmap entry with one bit set or cleared holds the other bits as before.
#[verifier::spinoff_prover]
pub proof fn lemma_entry_bits(entry: Seq<u8>, bit: int, other: int)
    requires
        entry.len() == 32,
        0 <= bit < 208,
        0 <= other < 208,
    ensures
        bit_is_set(crate::valuelog::with_bit(entry, bit), bit),
        !bit_is_set(crate::valuelog::without_bit(entry, bit), bit),
        other != bit ==> bit_is_set(crate::valuelog::with_bit(entry, bit), other) == bit_is_set(
            entry,
            other,
        ),
        other != bit ==> bit_is_set(crate::valuelog::without_bit(entry, bit), other)
            == bit_is_set(entry, other),
{
    let byte = entry[bit / 8];
    lemma_bits(byte, (bit % 8) as u8, (other % 8) as u8);
    if other / 8 == bit / 8 && other != bit {
        assert(other % 8 != bit % 8);
    }
}

/// The place of the bitmap entry for a slot of the log lies within its sector, behind
/// the header.
#[verifier::spinoff_prover]
pub proof fn lemma_entry_in_sector(
    image: Image,
    delmap: Map<u64, u64>,
    first: u64,
    end: u64,
    cursor: u64,
    offset: u64,
)
    requires
        delmap_follows(first, end, cursor, delmap),
        delmap_sectors_ok(image, delmap),
        end % VALUE_SIZE == 0,
        mark_between(offset, first, end),
    ensures
        delmap.contains_key(span_floor(offset, DELMAP_SPAN)),
        image.delmap_sector_ok(
            span_floor(offset, DELMAP_SPAN),
            delmap[span_floor(offset, DELMAP_SPAN)],
        ),
        image.entry_place(delmap, offset) == delmap[span_floor(offset, DELMAP_SPAN)] + 32 * ((offset
            % DELMAP_SPAN) / ENTRY_SPAN),
        delmap[span_floor(offset, DELMAP_SPAN)] <= image.entry_place(delmap, offset),
        image.entry_place(delmap, offset) + 32 <= delmap[span_floor(offset, DELMAP_SPAN)]
            - FIRST_SLOT_OFFSET + SECTOR_SIZE,
        image.entry_place(delmap, offset) + 32 <= image.file_size(),
        (image.entry_place(delmap, offset) - delmap[span_floor(offset, DELMAP_SPAN)]) % 32 == 0,
        0 <= mark_bit(offset) < 208,
{
    reveal(mark_between);
    lemma_entry_where(first, end, cursor, delmap, offset);
    let key = span_floor(offset, DELMAP_SPAN);
    assert(image.delmap_sector_ok(key, delmap[key]));
}

/// Two different slots of the log have different bitmap entries, or different bits of
/// one entry.
#[verifier::spinoff_prover]
pub proof fn lemma_marks_differ(
    image: Image,
    delmap: Map<u64, u64>,
    first: u64,
    end: u64,
    cursor: u64,
    a: u64,
    b: u64,
)
    requires
        delmap_follows(first, end, cursor, delmap),
        delmap_sectors_ok(image, delmap),
        end % VALUE_SIZE == 0,
        mark_between(a, first, end),
        mark_between(b, first, end),
        a != b,
    ensures
        image.entry_place(delmap, a) != image.entry_place(delmap, b) || mark_bit(a) != mark_bit(b),
{
    reveal(mark_between);
    lemma_entry_in_sector(image, delmap, first, end, cursor, a);
    lemma_entry_in_sector(image, delmap, first, end, cursor, b);
    lemma_entry_where(first, end, cursor, delmap, a);
    lemma_entry_where(first, end, cursor, delmap, b);
    let ka = span_floor(a, DELMAP_SPAN);
    let kb = span_floor(b, DELMAP_SPAN);
    if ka != kb {
        let base_a = (delmap[ka] - FIRST_SLOT_OFFSET) as u64;
        let base_b = (delmap[kb] - FIRST_SLOT_OFFSET) as u64;
        assert(image.num(base_a) == ka);
        assert(image.num(base_b) == kb);
        lemma_sectors_apart(base_a, base_b);
    }
}

/// The marks of the slots of the log are as before after a change that left their
/// entries as they read, but for one entry in which one bit was set or cleared.
#[verifier::spinoff_prover]
pub proof fn lemma_marks_kept(
    before: Image,
    before_delmap: Map<u64, u64>,
    after: Image,
    after_delmap: Map<u64, u64>,
    first: u64,
    end: u64,
    cursor: u64,
    touched: Set<u64>,
    changed: u64,
    bit: int,
    except: u64,
    bitwise: bool,
)
    requires
        delmap_follows(first, end, cursor, before_delmap),
        delmap_sectors_ok(before, before_delmap),
        end % VALUE_SIZE == 0,
        extends(before_delmap, after_delmap),
        agree_except(before, after, touched),
        0 <= bit < 208,
        bitwise ==> before.read(changed, 32).len() == 32 && (after.read(changed, 32)
            == crate::valuelog::with_bit(before.read(changed, 32), bit) || after.read(changed, 32)
            == crate::valuelog::without_bit(before.read(changed, 32), bit)),
        forall|offset: u64|
            mark_between(offset, first, end) && offset != except ==> {
                ||| !touched.contains(#[trigger] before.entry_place(before_delmap, offset))
                ||| (bitwise && before.entry_place(before_delmap, offset) == changed && mark_bit(
                    offset,
                ) != bit)
            },
    ensures
        marks_kept_but(before, before_delmap, after, after_delmap, first, end, except),
{
    assert forall|offset: u64|
        #![trigger after.is_live(after_delmap, offset)]
        mark_between(offset, first, end) && offset != except implies after.is_live(
        after_delmap,
        offset,
    ) == before.is_live(before_delmap, offset) by {
        lemma_entry_in_sector(before, before_delmap, first, end, cursor, offset);
        let place = before.entry_place(before_delmap, offset);
        assert(after.entry_place(after_delmap, offset) == place);
        if !touched.contains(place) {
            assert(after.read(place, 32) == before.read(place, 32));
        } else {
            lemma_entry_bits(before.read(changed, 32), bit, mark_bit(offset));
        }
    }
}

/// The places of the bitmap entries are none of the header fields, and lie in no
/// sector that is none of the bitmap's.
#[verifier::spinoff_prover]
pub proof fn lemma_entries_spared(
    image: Image,
    delmap: Map<u64, u64>,
    first: u64,
    end: u64,
    cursor: u64,
    other: u64,
    offset: u64,
)
    requires
        delmap_follows(first, end, cursor, delmap),
        delmap_sectors_ok(image, delmap),
        end % VALUE_SIZE == 0,
        mark_between(offset, first, end),
        is_sector_base(other),
        forall|key: u64| #[trigger]
            delmap.contains_key(key) ==> delmap[key] - FIRST_SLOT_OFFSET != other,
    ensures
        image.entry_place(delmap, offset) >= FIRST_SECTOR_OFFSET + FIRST_SLOT_OFFSET,
        !(other <= image.entry_place(delmap, offset) < other + SECTOR_SIZE),
{
    lemma_entry_in_sector(image, delmap, first, end, cursor, offset);
    let key = span_floor(offset, DELMAP_SPAN);
    let base = (delmap[key] - FIRST_SLOT_OFFSET) as u64;
    lemma_sectors_apart(base, other);
}

/// A change within a sector that is none of the bitmap's, or to header fields below
/// the first sector, leaves the marks of the slots of the log as they are.
#[verifier::spinoff_prover]
pub proof fn lemma_elsewhere_keeps_marks(
    before: Image,
    after: Image,
    delmap: Map<u64, u64>,
    first: u64,
    end: u64,
    cursor: u64,
    touched: Set<u64>,
    base: u64,
)
    requires
        delmap_follows(first, end, cursor, delmap),
        delmap_sectors_ok(before, delmap),
        end % VALUE_SIZE == 0,
        agree_except(before, after, touched),
        is_sector_base(base),
        forall|key: u64| #[trigger]
            delmap.contains_key(key) ==> delmap[key] - FIRST_SLOT_OFFSET != base,
        forall|offset: u64|
            touched.contains(offset) ==> offset < FIRST_SECTOR_OFFSET || base <= offset < base
                + SECTOR_SIZE,
    ensures
        marks_kept(before, delmap, after, delmap, first, end),
{
    assert forall|offset: u64|
        #![trigger after.is_live(delmap, offset)]
        mark_between(offset, first, end) implies after.is_live(delmap, offset) == before.is_live(
        delmap,
        offset,
    ) by {
        lemma_entries_spared(before, delmap, first, end, cursor, base, offset);
        lemma_entry_in_sector(before, delmap, first, end, cursor, offset);
        let place = before.entry_place(delmap, offset);
        assert(!touched.contains(place));
        assert(after.read(place, 32) == before.read(place, 32));
    }
}

/// Marks that were kept over two steps were kept over both.
pub proof fn lemma_marks_kept_twice(
    a: Image,
    ad: Map<u64, u64>,
    b: Image,
    bd: Map<u64, u64>,
    c: Image,
    cd: Map<u64, u64>,
    first: u64,
    end: u64,
)
    requires
        marks_kept(a, ad, b, bd, first, end),
        marks_kept(b, bd, c, cd, first, end),
    ensures
        marks_kept(a, ad, c, cd, first, end),
{
    reveal(mark_between);
    assert forall|offset: u64|
        #![trigger c.is_live(cd, offset)]
        mark_between(offset, first, end) implies c.is_live(cd, offset) == a.is_live(
        ad,
        offset,
    ) by {
        assert(b.is_live(bd, offset) == a.is_live(ad, offset));
    }
}

/// Marking the slot appended last leaves the marks of the slots before as they are.
#[verifier::spinoff_prover]
pub proof fn lemma_mark_keeps_marks(
    before: Image,
    before_delmap: Map<u64, u64>,
    after: Image,
    after_delmap: Map<u64, u64>,
    first: u64,
    cur: u64,
    cursor: u64,
    moved: u64,
    at: u64,
    base: u64,
)
    requires
        first % VALUE_SIZE == 0,
        cur % VALUE_SIZE == 0,
        first <= cur,
        cur + VALUE_SIZE <= u64::MAX,
        delmap_follows(first, cur, cursor, before_delmap),
        delmap_sectors_ok(before, before_delmap),
        extends(before_delmap, after_delmap),
        cur % DELMAP_SPAN != 0 ==> {
            &&& agree_except(before, after, set![at, 48u64])
            &&& at == before.entry_place(before_delmap, cur)
            &&& before.read(at, 32).len() == 32
            &&& after.read(at, 32) == crate::valuelog::with_bit(before.read(at, 32), mark_bit(cur))
            &&& delmap_follows(first, (cur + VALUE_SIZE) as u64, moved, before_delmap)
        },
        cur % DELMAP_SPAN == 0 ==> {
            &&& agree_except(before, after, crate::valuelog::append_touches(48, base))
            &&& is_sector_base(base)
            &&& forall|key: u64| #[trigger]
                before_delmap.contains_key(key) ==> before_delmap[key] - FIRST_SLOT_OFFSET
                    != base
        },
    ensures
        marks_kept(before, before_delmap, after, after_delmap, first, cur),
{
    reveal(mark_between);
    if cur % DELMAP_SPAN != 0 {
        let touched = set![at, 48u64];
        let end = (cur + VALUE_SIZE) as u64;
        crate::logshape::lemma_span_floor_monotone(first, cur, DELMAP_SPAN);
        lemma_entry_in_sector(before, before_delmap, first, end, moved, cur);
        assert forall|offset: u64| mark_between(offset, first, cur) && offset != u64::MAX implies {
            ||| !touched.contains(#[trigger] before.entry_place(before_delmap, offset))
            ||| (true && before.entry_place(before_delmap, offset) == at && mark_bit(offset)
                != mark_bit(cur))
        } by {
            lemma_entry_in_sector(before, before_delmap, first, cur, cursor, offset);
            lemma_marks_differ(before, before_delmap, first, end, moved, offset, cur);
            let key = span_floor(offset, DELMAP_SPAN);
            assert(before.delmap_sector_ok(key, before_delmap[key]));
        }
        lemma_marks_kept(
            before,
            before_delmap,
            after,
            after_delmap,
            first,
            cur,
            cursor,
            touched,
            at,
            mark_bit(cur),
            u64::MAX,
            true,
        );
    } else {
        let touched = crate::valuelog::append_touches(48, base);
        assert forall|offset: u64| mark_between(offset, first, cur) && offset != u64::MAX implies {
            ||| !touched.contains(#[trigger] before.entry_place(before_delmap, offset))
            ||| (false && before.entry_place(before_delmap, offset) == 0 && mark_bit(offset) != 0)
        } by {
            lemma_entries_spared(before, before_delmap, first, cur, cursor, base, offset);
        }
        lemma_marks_kept(
            before,
            before_delmap,
            after,
            after_delmap,
            first,
            cur,
            cursor,
            touched,
            0,
            0,
            u64::MAX,
            false,
        );
    }
}

/// A write to a header field leaves the marks of the slots of the log as they are.
#[verifier::spinoff_prover]
pub proof fn lemma_header_keeps_marks(
    before: Image,
    delmap: Map<u64, u64>,
    first: u64,
    end: u64,
    cursor: u64,
    offset: u64,
    data: Seq<u8>,
)
    requires
        delmap_follows(first, end, cursor, delmap),
        delmap_sectors_ok(before, delmap),
        end % VALUE_SIZE == 0,
        0 < offset < FIRST_SECTOR_OFFSET,
    ensures
        marks_kept(before, delmap, before.put(offset, data), delmap, first, end),
{
    reveal(mark_between);
    let touched = set![offset];
    let after = before.put(offset, data);
    crate::frame::lemma_agree_put(before, offset, data);
    assert forall|at: u64|
        #![trigger after.is_live(delmap, at)]
        mark_between(at, first, end) implies after.is_live(delmap, at) == before.is_live(
        delmap,
        at,
    ) by {
        lemma_entry_in_sector(before, delmap, first, end, cursor, at);
        let key = span_floor(at, DELMAP_SPAN);
        assert(before.delmap_sector_ok(key, delmap[key]));
        let place = before.entry_place(delmap, at);
        assert(!touched.contains(place));
        assert(after.read(place, 32) == before.read(place, 32));
    }
}

/// Moving the start of the log leaves the marks of the slots that stay in the log as
/// they are. `kept` is the directory of the bitmap after the move.
#[verifier::spinoff_prover]
pub proof fn lemma_retire_keeps_marks(
    before: Image,
    before_delmap: Map<u64, u64>,
    after: Image,
    kept: Map<u64, u64>,
    first: u64,
    end: u64,
    cursor: u64,
)
    requires
        delmap_follows(first, end, cursor, kept),
        delmap_sectors_ok(before, kept),
        end % VALUE_SIZE == 0,
        extends(kept, before_delmap),
        agree_except(before, after, retire_touches()),
    ensures
        marks_kept(before, before_delmap, after, kept, first, end),
{
    reveal(mark_between);
    let touched = retire_touches();
    assert forall|offset: u64|
        #![trigger after.is_live(kept, offset)]
        mark_between(offset, first, end) implies after.is_live(kept, offset) == before.is_live(
        before_delmap,
        offset,
    ) by {
        reveal(retire_touches);
        lemma_entry_in_sector(before, kept, first, end, cursor, offset);
        let key = span_floor(offset, DELMAP_SPAN);
        assert(before.delmap_sector_ok(key, kept[key]));
        let base = (kept[key] - FIRST_SLOT_OFFSET) as u64;
        let place = before.entry_place(kept, offset);
        let rel = place - base;
        assert(64 <= rel < SECTOR_SIZE && rel % 32 == 0);
        assert((place - FIRST_SECTOR_OFFSET) % (SECTOR_SIZE as int) == rel);
        assert(!touched.contains(place));
        assert(after.read(place, 32) == before.read(place, 32));
        lemma_entry_where(first, end, cursor, kept, offset);
    }
}

/// Marks that were kept up to an end and from a start on were kept up to any earlier
/// end and from any later start on.
#[verifier::spinoff_prover]
pub proof fn lemma_marks_kept_within(
    a: Image,
    ad: Map<u64, u64>,
    b: Image,
    bd: Map<u64, u64>,
    first: u64,
    end: u64,
    later: u64,
    earlier: u64,
    except: u64,
)
    requires
        marks_kept_but(a, ad, b, bd, first, end, except),
        first <= later,
        earlier <= end,
    ensures
        marks_kept_but(a, ad, b, bd, later, earlier, except),
{
    reveal(mark_between);
    crate::logshape::lemma_span_floor_monotone(first, later, DELMAP_SPAN);
}

/// Marking a slot as deleted clears its mark, and leaves the marks of the other slots
/// and what the slots hold as they are.
#[verifier::spinoff_prover]
pub proof fn lemma_delete_keeps(
    before: Image,
    values: Map<u64, u64>,
    delmap: Map<u64, u64>,
    first: u64,
    end: u64,
    value_cursor: u64,
    cursor: u64,
    offset: u64,
)
    requires
        values_follow(first, end, value_cursor, values),
        delmap_follows(first, end, cursor, delmap),
        value_sectors_ok(before, values),
        delmap_sectors_ok(before, delmap),
        end % VALUE_SIZE == 0,
        mark_between(offset, first, end),
        before.entry_at(delmap, offset).len() == 32,
    ensures
        ({
            let after = before.put(
                before.entry_place(delmap, offset),
                crate::valuelog::without_bit(before.entry_at(delmap, offset), mark_bit(offset)),
            );
            &&& !after.is_live(delmap, offset)
            &&& marks_kept_but(before, delmap, after, delmap, first, end, offset)
            &&& slots_kept(before, values, after, values, first, end)
        }),
{
    reveal(mark_between);
    let place = before.entry_place(delmap, offset);
    let entry = before.entry_at(delmap, offset);
    let after = before.put(place, crate::valuelog::without_bit(entry, mark_bit(offset)));
    let touched = set![place];
    lemma_entry_in_sector(before, delmap, first, end, cursor, offset);
    crate::frame::lemma_agree_put(before, place, crate::valuelog::without_bit(entry, mark_bit(offset)));
    lemma_entry_bits(entry, mark_bit(offset), mark_bit(offset));
    assert forall|other: u64| mark_between(other, first, end) && other != offset implies {
        ||| !touched.contains(#[trigger] before.entry_place(delmap, other))
        ||| (true && before.entry_place(delmap, other) == place && mark_bit(other) != mark_bit(
            offset,
        ))
    } by {
        lemma_marks_differ(before, delmap, first, end, cursor, other, offset);
    }
    lemma_marks_kept(
        before,
        delmap,
        after,
        delmap,
        first,
        end,
        cursor,
        touched,
        place,
        mark_bit(offset),
        offset,
        true,
    );
    let key = span_floor(offset, DELMAP_SPAN);
    let base = (delmap[key] - FIRST_SLOT_OFFSET) as u64;
    assert forall|other: u64| #[trigger] values.contains_key(other) implies values[other]
        - VALUE_SIZE != base by {
        assert(before.value_sector_ok(other, values[other]));
    }
    lemma_elsewhere_keeps_slots(before, after, values, first, end, value_cursor, touched, base);
}

} // verus!
