use vstd::prelude::*;
use crate::frame::agree_except;
use crate::image::Image;
use crate::layout::DELMAP_ENTRY_SIZE;
use crate::layout::DELMAP_SPAN;
use crate::layout::ENTRY_SPAN;
use crate::layout::FIRST_SLOT_OFFSET;
use crate::layout::FIRST_VALUE_LOGICAL_OFFSET;
use crate::layout::is_sector_base;
use crate::layout::NEXT_DELMAP_PHYSICAL_OFFSET;
use crate::layout::NEXT_VALUE_LOGICAL_OFFSET;
use crate::layout::NEXT_VALUE_PHYSICAL_OFFSET;
use crate::layout::PAGE_TYPE_DELMAP;
use crate::layout::PAGE_TYPE_VALUES;
use crate::layout::SECTOR_TYPE_OFFSET;
use crate::layout::VALUE_LIMIT;
use crate::layout::VALUE_SIZE;
use crate::layout::VALUE_SPAN;
use crate::shape::lemma_cell_readable;
use crate::shape::lemma_in_sector;

verus! {

/// The greatest multiple of `span` that is not above `offset`.
pub open spec fn span_floor(offset: u64, span: u64) -> u64 {
    (offset - offset % span) as u64
}

/// File offset of the bitmap entry for the slot that lies `rel` logical bytes into the
/// stretch of a bitmap sector whose first entry is at `first_entry`.
pub open spec fn entry_offset(first_entry: u64, rel: int) -> int {
    first_entry + DELMAP_ENTRY_SIZE * (rel / (ENTRY_SPAN as int))
}

impl Image {
    /// The directory entry `key -> first_slot` describes a sector of the value log:
    /// the sector is in the file, has the type of the value log, and is keyed by the
    /// logical offset of its first slot.
    pub open spec fn value_sector_ok(self, key: u64, first_slot: u64) -> bool {
        &&& first_slot >= VALUE_SIZE
        &&& self.has_sector((first_slot - VALUE_SIZE) as u64)
        &&& self.kind((first_slot - VALUE_SIZE) as u64) == PAGE_TYPE_VALUES
        &&& self.num((first_slot - VALUE_SIZE) as u64) == key
    }

    /// The directory entry `key -> first_entry` describes a sector of the deletion
    /// bitmap.
    pub open spec fn delmap_sector_ok(self, key: u64, first_entry: u64) -> bool {
        &&& first_entry >= FIRST_SLOT_OFFSET
        &&& self.has_sector((first_entry - FIRST_SLOT_OFFSET) as u64)
        &&& self.kind((first_entry - FIRST_SLOT_OFFSET) as u64) == PAGE_TYPE_DELMAP
        &&& self.num((first_entry - FIRST_SLOT_OFFSET) as u64) == key
    }

    /// The two ends of the value log are whole slots apart, in order, and low enough
    /// for an index entry to hold them.
    pub open spec fn cursors_ok(self) -> bool {
        &&& self.first_logical() % VALUE_SIZE == 0
        &&& self.next_logical() % VALUE_SIZE == 0
        &&& self.first_logical() <= self.next_logical() <= VALUE_LIMIT - VALUE_SIZE
    }

    /// Every entry of the two directories describes a sector of its kind.
    pub open spec fn dirs_ok(self, values: Map<u64, u64>, delmap: Map<u64, u64>) -> bool {
        &&& forall|key: u64| #[trigger]
            values.contains_key(key) ==> self.value_sector_ok(key, values[key])
        &&& forall|key: u64| #[trigger]
            delmap.contains_key(key) ==> self.delmap_sector_ok(key, delmap[key])
    }

    /// The value log and its bitmap are laid out soundly.
    pub open spec fn log_ok(self, values: Map<u64, u64>, delmap: Map<u64, u64>) -> bool {
        &&& self.cursors_ok()
        &&& self.dirs_ok(values, delmap)
        &&& values_follow(
            self.first_logical(),
            self.next_logical(),
            self.next_value_physical(),
            values,
        )
        &&& delmap_follows(
            self.first_logical(),
            self.next_logical(),
            self.next_delmap_physical(),
            delmap,
        )
    }
}

/// The directory of the value log holds one sector for each stretch of the logical
/// space that the log reaches into, and the physical write position `place` follows
/// the logical one.
#[verifier::opaque]
pub open spec fn values_follow(first: u64, next: u64, place: u64, values: Map<u64, u64>) -> bool {
    &&& forall|key: u64| #[trigger]
        values.contains_key(key) <==> (key % VALUE_SPAN == 0 && span_floor(first, VALUE_SPAN)
            <= key < next)
    &&& next % VALUE_SPAN != 0 ==> place == values[span_floor(next, VALUE_SPAN)] + next
        % VALUE_SPAN
    &&& next % VALUE_SPAN == 0 ==> is_sector_base(place)
}

/// The directory of the deletion bitmap holds one sector for each stretch of the
/// logical space that the log reaches into, and the physical write position `place`
/// stands behind the entry for the last slot written.
#[verifier::opaque]
pub open spec fn delmap_follows(first: u64, next: u64, place: u64, delmap: Map<u64, u64>) -> bool {
    &&& forall|key: u64| #[trigger]
        delmap.contains_key(key) <==> (key % DELMAP_SPAN == 0 && span_floor(first, DELMAP_SPAN)
            <= key < next)
    &&& next % DELMAP_SPAN != 0 ==> place == entry_offset(
        delmap[span_floor(next, DELMAP_SPAN)],
        (next % DELMAP_SPAN) as int,
    ) + (if next % ENTRY_SPAN != 0 {
        DELMAP_ENTRY_SIZE as int
    } else {
        0
    })
    &&& next % DELMAP_SPAN == 0 ==> is_sector_base(place)
}

/// Whether none of the offsets in `touched` is a header field of the value log, or
/// the key or the type of a sector of the log or of the bitmap.
pub open spec fn spares_log(touched: Set<u64>, values: Map<u64, u64>, delmap: Map<u64, u64>) -> bool {
    &&& !touched.contains(NEXT_VALUE_LOGICAL_OFFSET)
    &&& !touched.contains(FIRST_VALUE_LOGICAL_OFFSET)
    &&& !touched.contains(NEXT_VALUE_PHYSICAL_OFFSET)
    &&& !touched.contains(NEXT_DELMAP_PHYSICAL_OFFSET)
    &&& spares_dirs(touched, values, delmap)
}

/// Whether none of the offsets in `touched` is the key or the type of a sector of
/// the log or of the bitmap.
pub open spec fn spares_dirs(touched: Set<u64>, values: Map<u64, u64>, delmap: Map<u64, u64>) -> bool {
    &&& forall|key: u64| #[trigger]
        values.contains_key(key) ==> !touched.contains((values[key] - VALUE_SIZE) as u64)
            && !touched.contains((values[key] - VALUE_SIZE + SECTOR_TYPE_OFFSET) as u64)
    &&& forall|key: u64| #[trigger]
        delmap.contains_key(key) ==> !touched.contains((delmap[key] - FIRST_SLOT_OFFSET) as u64)
            && !touched.contains((delmap[key] - FIRST_SLOT_OFFSET + SECTOR_TYPE_OFFSET) as u64)
}

/// The directories of the log survive changes that spare the keys and types of
/// their sectors.
pub proof fn lemma_dirs_frame(
    before: Image,
    after: Image,
    touched: Set<u64>,
    values: Map<u64, u64>,
    delmap: Map<u64, u64>,
)
    requires
        before.dirs_ok(values, delmap),
        agree_except(before, after, touched),
        spares_dirs(touched, values, delmap),
    ensures
        after.dirs_ok(values, delmap),
{
    assert forall|key: u64| #[trigger] values.contains_key(key) implies after.value_sector_ok(
        key,
        values[key],
    ) by {
        let base = (values[key] - VALUE_SIZE) as u64;
        assert(before.value_sector_ok(key, values[key]));
        assert(after.read(base, 8) == before.read(base, 8));
        assert(after.read((base + SECTOR_TYPE_OFFSET) as u64, 8) == before.read(
            (base + SECTOR_TYPE_OFFSET) as u64,
            8,
        ));
    }
    assert forall|key: u64| #[trigger] delmap.contains_key(key) implies after.delmap_sector_ok(
        key,
        delmap[key],
    ) by {
        let base = (delmap[key] - FIRST_SLOT_OFFSET) as u64;
        assert(before.delmap_sector_ok(key, delmap[key]));
        assert(after.read(base, 8) == before.read(base, 8));
        assert(after.read((base + SECTOR_TYPE_OFFSET) as u64, 8) == before.read(
            (base + SECTOR_TYPE_OFFSET) as u64,
            8,
        ));
    }
}

/// The layout of the log survives changes that spare its fields.
pub proof fn lemma_log_frame(
    before: Image,
    after: Image,
    touched: Set<u64>,
    values: Map<u64, u64>,
    delmap: Map<u64, u64>,
)
    requires
        before.log_ok(values, delmap),
        before.file_size() >= 4096,
        agree_except(before, after, touched),
        spares_log(touched, values, delmap),
    ensures
        after.log_ok(values, delmap),
{
    assert(after.read(NEXT_VALUE_LOGICAL_OFFSET, 8) == before.read(NEXT_VALUE_LOGICAL_OFFSET, 8));
    assert(after.read(FIRST_VALUE_LOGICAL_OFFSET, 8) == before.read(
        FIRST_VALUE_LOGICAL_OFFSET,
        8,
    ));
    assert(after.read(NEXT_VALUE_PHYSICAL_OFFSET, 8) == before.read(
        NEXT_VALUE_PHYSICAL_OFFSET,
        8,
    ));
    assert(after.read(NEXT_DELMAP_PHYSICAL_OFFSET, 8) == before.read(
        NEXT_DELMAP_PHYSICAL_OFFSET,
        8,
    ));
    lemma_dirs_frame(before, after, touched, values, delmap);
}

/// Whether bit `i` of a bitmap entry is set.
pub open spec fn bit_is_set(entry: Seq<u8>, i: int) -> bool {
    entry[i / 8] & (1u8 << ((i % 8) as u8)) != 0
}

impl Image {
    /// Whether the value slot at logical offset `offset` can be read: it is a whole
    /// slot, written already, in a sector that the log still holds.
    pub open spec fn holds_slot(self, offset: u64) -> bool {
        &&& offset % VALUE_SIZE == 0
        &&& span_floor(self.first_logical(), VALUE_SPAN) <= offset < self.next_logical()
    }

    /// Whether the bitmap still covers the value slot at logical offset `offset`.
    pub open spec fn covers_slot(self, offset: u64) -> bool {
        &&& offset % VALUE_SIZE == 0
        &&& span_floor(self.first_logical(), DELMAP_SPAN) <= offset < self.next_logical()
    }

    /// File offset of the value slot at logical offset `offset`.
    pub open spec fn slot_place(self, values: Map<u64, u64>, offset: u64) -> u64 {
        (values[span_floor(offset, VALUE_SPAN)] + offset % VALUE_SPAN) as u64
    }

    /// The value slot at logical offset `offset`.
    pub open spec fn value_at(self, values: Map<u64, u64>, offset: u64) -> Seq<u8> {
        self.read(self.slot_place(values, offset), VALUE_SIZE as nat)
    }

    /// File offset of the bitmap entry for the value slot at logical offset `offset`.
    pub open spec fn entry_place(self, delmap: Map<u64, u64>, offset: u64) -> u64 {
        entry_offset(delmap[span_floor(offset, DELMAP_SPAN)], (offset % DELMAP_SPAN) as int) as u64
    }

    /// The bitmap entry for the value slot at logical offset `offset`.
    pub open spec fn entry_at(self, delmap: Map<u64, u64>, offset: u64) -> Seq<u8> {
        self.read(self.entry_place(delmap, offset), DELMAP_ENTRY_SIZE as nat)
    }

    /// Whether the bitmap marks the value slot at logical offset `offset` as live.
    pub open spec fn is_live(self, delmap: Map<u64, u64>, offset: u64) -> bool {
        bit_is_set(self.entry_at(delmap, offset), ((offset / VALUE_SIZE) % 208) as int)
    }
}

/// Facts about the stretch of the value log that holds an offset.
pub proof fn lemma_value_span(offset: u64)
    requires
        offset % VALUE_SIZE == 0,
    ensures
        span_floor(offset, VALUE_SPAN) % VALUE_SPAN == 0,
        span_floor(offset, VALUE_SPAN) <= offset < span_floor(offset, VALUE_SPAN) + VALUE_SPAN,
        (offset % VALUE_SPAN) % 128 == 0,
        offset % VALUE_SPAN <= VALUE_SPAN - VALUE_SIZE,
{
}

/// Facts about the stretch of the bitmap that covers an offset.
pub proof fn lemma_delmap_span(offset: u64)
    requires
        offset % VALUE_SIZE == 0,
    ensures
        span_floor(offset, DELMAP_SPAN) % DELMAP_SPAN == 0,
        span_floor(offset, DELMAP_SPAN) <= offset < span_floor(offset, DELMAP_SPAN) + DELMAP_SPAN,
        0 <= (offset % DELMAP_SPAN) / ENTRY_SPAN < 32766,
{
}

/// No multiple of the span lies between the floor of an offset and the offset.
pub proof fn lemma_span_floor_greatest(key: u64, offset: u64, span: u64)
    requires
        key % span == 0,
        key <= offset,
        span == VALUE_SPAN || span == DELMAP_SPAN,
    ensures
        key <= span_floor(offset, span),
{
    let q1 = key / span;
    let q2 = offset / span;
    if span == VALUE_SPAN {
        assert(key == VALUE_SPAN * q1 + key % VALUE_SPAN);
        assert(offset == VALUE_SPAN * q2 + offset % VALUE_SPAN);
        if q1 > q2 {
            assert(VALUE_SPAN * q1 >= VALUE_SPAN * q2 + VALUE_SPAN);
        }
    } else {
        assert(key == DELMAP_SPAN * q1 + key % DELMAP_SPAN);
        assert(offset == DELMAP_SPAN * q2 + offset % DELMAP_SPAN);
        if q1 > q2 {
            assert(DELMAP_SPAN * q1 >= DELMAP_SPAN * q2 + DELMAP_SPAN);
        }
    }
}

/// The floor of a greater offset is not below the floor of a smaller one.
pub proof fn lemma_span_floor_monotone(a: u64, b: u64, span: u64)
    requires
        a <= b,
        span == VALUE_SPAN || span == DELMAP_SPAN,
    ensures
        span_floor(a, span) <= span_floor(b, span),
        span_floor(a, span) % span == 0,
        span_floor(a, span) <= a,
{
    if span == VALUE_SPAN {
        assert(span_floor(a, VALUE_SPAN) <= span_floor(b, VALUE_SPAN));
        assert(span_floor(a, VALUE_SPAN) % VALUE_SPAN == 0);
    } else {
        assert(span_floor(a, DELMAP_SPAN) <= span_floor(b, DELMAP_SPAN));
        assert(span_floor(a, DELMAP_SPAN) % DELMAP_SPAN == 0);
    }
}

/// A value slot that the log holds has its place in a sector of the log, where it
/// can be read and written.
pub proof fn lemma_slot_place(
    image: Image,
    values: Map<u64, u64>,
    delmap: Map<u64, u64>,
    offset: u64,
)
    requires
        image.sized(),
        image.conforming(),
        image.log_ok(values, delmap),
        image.holds_slot(offset),
    ensures
        values.contains_key(span_floor(offset, VALUE_SPAN)),
        image.value_sector_ok(span_floor(offset, VALUE_SPAN), values[span_floor(offset, VALUE_SPAN)]),
        image.slot_place(values, offset) == values[span_floor(offset, VALUE_SPAN)] + offset
            % VALUE_SPAN,
        image.cell_ok(image.slot_place(values, offset), VALUE_SIZE as nat),
        image.readable(image.slot_place(values, offset), VALUE_SIZE as nat),
        image.writable(image.slot_place(values, offset), VALUE_SIZE as nat),
{
    reveal(values_follow);
    let key = span_floor(offset, VALUE_SPAN);
    lemma_value_span(offset);
    lemma_span_floor_monotone(image.first_logical(), image.first_logical(), VALUE_SPAN);
    lemma_span_floor_greatest(span_floor(image.first_logical(), VALUE_SPAN), offset, VALUE_SPAN);
    assert(values.contains_key(key));
    assert(image.value_sector_ok(key, values[key]));
    let base = (values[key] - VALUE_SIZE) as u64;
    let place = image.slot_place(values, offset);
    lemma_in_sector(base, place);
    if image.changes.contains_key(place) {
        assert(image.cell_ok(place, image.changes[place].len()));
    }
    lemma_cell_readable(image, place, VALUE_SIZE as nat);
}

/// A value slot that the bitmap covers has its entry in a sector of the bitmap, where
/// it can be read and written.
pub proof fn lemma_entry_place(
    image: Image,
    values: Map<u64, u64>,
    delmap: Map<u64, u64>,
    offset: u64,
)
    requires
        image.sized(),
        image.conforming(),
        image.log_ok(values, delmap),
        image.covers_slot(offset),
    ensures
        delmap.contains_key(span_floor(offset, DELMAP_SPAN)),
        image.delmap_sector_ok(
            span_floor(offset, DELMAP_SPAN),
            delmap[span_floor(offset, DELMAP_SPAN)],
        ),
        image.entry_place(delmap, offset) == delmap[span_floor(offset, DELMAP_SPAN)] + 32 * ((offset
            % DELMAP_SPAN) / ENTRY_SPAN),
        image.cell_ok(image.entry_place(delmap, offset), DELMAP_ENTRY_SIZE as nat),
        image.readable(image.entry_place(delmap, offset), DELMAP_ENTRY_SIZE as nat),
        image.writable(image.entry_place(delmap, offset), DELMAP_ENTRY_SIZE as nat),
{
    reveal(delmap_follows);
    let key = span_floor(offset, DELMAP_SPAN);
    lemma_delmap_span(offset);
    lemma_span_floor_monotone(image.first_logical(), image.first_logical(), DELMAP_SPAN);
    lemma_span_floor_greatest(span_floor(image.first_logical(), DELMAP_SPAN), offset, DELMAP_SPAN);
    assert(delmap.contains_key(key));
    assert(image.delmap_sector_ok(key, delmap[key]));
    let base = (delmap[key] - FIRST_SLOT_OFFSET) as u64;
    let place = image.entry_place(delmap, offset);
    lemma_in_sector(base, place);
    if image.changes.contains_key(place) {
        assert(image.cell_ok(place, image.changes[place].len()));
    }
    lemma_cell_readable(image, place, DELMAP_ENTRY_SIZE as nat);
}

/// The greatest key of the value log's directory that is not above a slot of the log
/// is the start of the stretch that holds the slot.
pub proof fn lemma_values_floor(
    first: u64,
    next: u64,
    place: u64,
    values: Map<u64, u64>,
    offset: u64,
    found: u64,
)
    requires
        values_follow(first, next, place, values),
        span_floor(first, VALUE_SPAN) <= offset < next,
        values.contains_key(found),
        found <= offset,
        forall|k: u64| values.contains_key(k) && k <= offset ==> k <= found,
    ensures
        found == span_floor(offset, VALUE_SPAN),
{
    reveal(values_follow);
    lemma_span_floor_monotone(first, first, VALUE_SPAN);
    lemma_span_floor_greatest(span_floor(first, VALUE_SPAN), offset, VALUE_SPAN);
    lemma_span_floor_monotone(offset, offset, VALUE_SPAN);
    assert(values.contains_key(span_floor(offset, VALUE_SPAN)));
    lemma_span_floor_greatest(found, offset, VALUE_SPAN);
}

/// The greatest key of the bitmap's directory that is not above a slot of the log is
/// the start of the stretch that covers the slot.
pub proof fn lemma_delmap_floor(
    first: u64,
    next: u64,
    place: u64,
    delmap: Map<u64, u64>,
    offset: u64,
    found: u64,
)
    requires
        delmap_follows(first, next, place, delmap),
        span_floor(first, DELMAP_SPAN) <= offset < next,
        delmap.contains_key(found),
        found <= offset,
        forall|k: u64| delmap.contains_key(k) && k <= offset ==> k <= found,
    ensures
        found == span_floor(offset, DELMAP_SPAN),
{
    reveal(delmap_follows);
    lemma_span_floor_monotone(first, first, DELMAP_SPAN);
    lemma_span_floor_greatest(span_floor(first, DELMAP_SPAN), offset, DELMAP_SPAN);
    lemma_span_floor_monotone(offset, offset, DELMAP_SPAN);
    assert(delmap.contains_key(span_floor(offset, DELMAP_SPAN)));
    lemma_span_floor_greatest(found, offset, DELMAP_SPAN);
}

/// Where the slot at a logical offset of the log lies: its stretch has a sector in the
/// directory, and it lies a whole number of slots into the stretch.
#[verifier::spinoff_prover]
pub proof fn lemma_slot_where(
    first: u64,
    next: u64,
    place: u64,
    values: Map<u64, u64>,
    offset: u64,
)
    requires
        values_follow(first, next, place, values),
        offset % VALUE_SIZE == 0,
        span_floor(first, VALUE_SPAN) <= offset < next,
    ensures
        values.contains_key(span_floor(offset, VALUE_SPAN)),
        (offset % VALUE_SPAN) % 128 == 0,
        offset % VALUE_SPAN <= VALUE_SPAN - VALUE_SIZE,
        span_floor(offset, VALUE_SPAN) + offset % VALUE_SPAN == offset,
{
    reveal(values_follow);
    lemma_value_span(offset);
    lemma_span_floor_monotone(first, first, VALUE_SPAN);
    lemma_span_floor_greatest(span_floor(first, VALUE_SPAN), offset, VALUE_SPAN);
}

/// Where the bitmap entry for the slot at a logical offset of the log lies: its
/// stretch has a sector in the directory, and the entry is one of the sector's.
#[verifier::spinoff_prover]
pub proof fn lemma_entry_where(
    first: u64,
    next: u64,
    place: u64,
    delmap: Map<u64, u64>,
    offset: u64,
)
    requires
        delmap_follows(first, next, place, delmap),
        offset % VALUE_SIZE == 0,
        next % VALUE_SIZE == 0,
        span_floor(first, DELMAP_SPAN) <= offset < next,
    ensures
        delmap.contains_key(span_floor(offset, DELMAP_SPAN)),
        0 <= (offset % DELMAP_SPAN) / ENTRY_SPAN < 32766,
        0 <= (offset / VALUE_SIZE) % 208 < 208,
        offset == span_floor(offset, DELMAP_SPAN) + ENTRY_SPAN * ((offset % DELMAP_SPAN)
            / ENTRY_SPAN) + 128 * ((offset / VALUE_SIZE) % 208),
{
    reveal(delmap_follows);
    lemma_delmap_span(offset);
    lemma_span_floor_monotone(first, first, DELMAP_SPAN);
    lemma_span_floor_greatest(span_floor(first, DELMAP_SPAN), offset, DELMAP_SPAN);
    crate::cursor::lemma_delmap_remainders(offset);
}

} // verus!
