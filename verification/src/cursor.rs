use vstd::prelude::*;
use crate::layout::DELMAP_ENTRY_SIZE;
use crate::layout::DELMAP_SPAN;
use crate::layout::ENTRY_SPAN;
use crate::layout::FIRST_SECTOR_OFFSET;
use crate::layout::FIRST_SLOT_OFFSET;
use crate::layout::is_sector_base;
use crate::layout::SECTOR_SIZE;
use crate::layout::VALUE_SIZE;
use crate::layout::VALUE_SPAN;
use crate::logshape::delmap_follows;
use crate::logshape::entry_offset;
use crate::logshape::span_floor;
use crate::logshape::values_follow;

verus! {

/// A multiple of the span of a sector is a whole number of slots.
#[verifier::spinoff_prover]
#[verifier::rlimit(40)]
pub proof fn lemma_span_multiple(key: u64, span: u64)
    requires
        key % span == 0,
        span == VALUE_SPAN || span == DELMAP_SPAN || span == ENTRY_SPAN,
    ensures
        key % VALUE_SIZE == 0,
{
    let q = key / span;
    if span == VALUE_SPAN {
        assert(key == VALUE_SPAN * q + key % VALUE_SPAN);
        assert(key == 128 * (8191 * q));
    } else if span == DELMAP_SPAN {
        assert(key == DELMAP_SPAN * q + key % DELMAP_SPAN);
        assert(key == 128 * (6815328 * q));
    } else {
        assert(key == ENTRY_SPAN * q + key % ENTRY_SPAN);
        assert(key == 128 * (208 * q));
    }
}

/// How the remainders of a logical offset change with the next slot, within a sector
/// of the value log.
#[verifier::spinoff_prover]
#[verifier::rlimit(40)]
pub proof fn lemma_value_remainders(next: u64)
    requires
        next % VALUE_SIZE == 0,
        next + VALUE_SIZE <= u64::MAX,
    ensures
        (next % VALUE_SPAN) % 128 == 0,
        next % VALUE_SPAN <= VALUE_SPAN - 128,
        next % VALUE_SPAN < VALUE_SPAN - 128 ==> {
            &&& (next + 128) % (VALUE_SPAN as int) == next % VALUE_SPAN + 128
            &&& span_floor((next + 128) as u64, VALUE_SPAN) == span_floor(next, VALUE_SPAN)
        },
        next % VALUE_SPAN == VALUE_SPAN - 128 ==> (next + 128) % (VALUE_SPAN as int) == 0,
{
    let q = next / VALUE_SPAN;
    let r = next % VALUE_SPAN;
    assert(next == VALUE_SPAN * q + r);
    let k = next / 128;
    assert(next == 128 * k);
    assert(r == 128 * k - 128 * (8191 * q));
    assert(r == 128 * (k - 8191 * q));
    if r < VALUE_SPAN - 128 {
        assert(next + 128 == VALUE_SPAN * q + (r + 128));
        lemma_div_mod_unique(next + 128, VALUE_SPAN as int, q as int, r + 128);
    } else {
        assert(r == VALUE_SPAN - 128);
        assert(next + 128 == VALUE_SPAN * (q + 1) + 0);
        lemma_div_mod_unique(next + 128, VALUE_SPAN as int, q + 1, 0);
    }
}

/// Quotient and remainder are determined by the division equation.
#[verifier::spinoff_prover]
#[verifier::rlimit(40)]
pub proof fn lemma_div_mod_unique(x: int, d: int, q: int, r: int)
    requires
        d > 0,
        0 <= r < d,
        x == d * q + r,
    ensures
        x / d == q,
        x % d == r,
{
    assert(d * q == q * d) by (nonlinear_arith);
    vstd::arithmetic::div_mod::lemma_fundamental_div_mod_converse(x, d, q, r);
}

/// The sector after a sector starts where that one ends.
#[verifier::spinoff_prover]
#[verifier::rlimit(40)]
pub proof fn lemma_next_sector(base: u64)
    requires
        is_sector_base(base),
        base + SECTOR_SIZE <= u64::MAX,
    ensures
        is_sector_base((base + SECTOR_SIZE) as u64),
        forall|inner: u64| base < inner < base + SECTOR_SIZE ==> !is_sector_base(inner),
{
}

/// Appending a slot within a sector of the value log keeps directory and write
/// position in step.
#[verifier::spinoff_prover]
#[verifier::rlimit(40)]
pub proof fn lemma_values_step_same(first: u64, next: u64, place: u64, values: Map<u64, u64>)
    requires
        first % VALUE_SIZE == 0,
        next % VALUE_SIZE == 0,
        first <= next,
        next + VALUE_SIZE <= u64::MAX,
        values_follow(first, next, place, values),
        next % VALUE_SPAN != 0,
        values[span_floor(next, VALUE_SPAN)] >= VALUE_SIZE,
        is_sector_base((values[span_floor(next, VALUE_SPAN)] - VALUE_SIZE) as u64),
        values[span_floor(next, VALUE_SPAN)] - VALUE_SIZE + SECTOR_SIZE <= u64::MAX,
    ensures
        values_follow(first, (next + VALUE_SIZE) as u64, (place + VALUE_SIZE) as u64, values),
        place == values[span_floor(next, VALUE_SPAN)] + next % VALUE_SPAN,
        !is_sector_base(place),
        place >= FIRST_SECTOR_OFFSET,
        place % SECTOR_SIZE != FIRST_SECTOR_OFFSET,
        place + VALUE_SIZE <= values[span_floor(next, VALUE_SPAN)] - VALUE_SIZE + SECTOR_SIZE,
{
    reveal(values_follow);
    let after = (next + VALUE_SIZE) as u64;
    lemma_value_remainders(next);
    let base = (values[span_floor(next, VALUE_SPAN)] - VALUE_SIZE) as u64;
    lemma_next_sector(base);
    assert forall|key: u64| #[trigger]
        values.contains_key(key) <==> (key % VALUE_SPAN == 0 && span_floor(first, VALUE_SPAN)
            <= key < after) by {
        if key % VALUE_SPAN == 0 && next <= key < after {
            lemma_span_multiple(key, VALUE_SPAN);
        }
    }
}

/// Appending the first slot of a new sector of the value log keeps directory and
/// write position in step.
#[verifier::spinoff_prover]
#[verifier::rlimit(40)]
pub proof fn lemma_values_step_new(
    first: u64,
    next: u64,
    place: u64,
    values: Map<u64, u64>,
    fresh: u64,
)
    requires
        first % VALUE_SIZE == 0,
        next % VALUE_SIZE == 0,
        first <= next,
        next + VALUE_SIZE <= u64::MAX,
        values_follow(first, next, place, values),
        next % VALUE_SPAN == 0,
        fresh + SECTOR_SIZE <= u64::MAX,
    ensures
        values_follow(
            first,
            (next + VALUE_SIZE) as u64,
            (fresh + 2 * VALUE_SIZE) as u64,
            values.insert(next, (fresh + VALUE_SIZE) as u64),
        ),
        !values.contains_key(next),
{
    reveal(values_follow);
    let after = (next + VALUE_SIZE) as u64;
    let grown = values.insert(next, (fresh + VALUE_SIZE) as u64);
    lemma_value_remainders(next);
    assert forall|key: u64| #[trigger]
        grown.contains_key(key) <==> (key % VALUE_SPAN == 0 && span_floor(first, VALUE_SPAN)
            <= key < after) by {
        if key % VALUE_SPAN == 0 && next <= key < after {
            lemma_span_multiple(key, VALUE_SPAN);
        }
        if key != next {
            assert(grown.contains_key(key) <==> values.contains_key(key));
        }
    }
}

/// How the remainders of a logical offset change with the next slot, within a sector
/// of the bitmap and within one of its entries.
#[verifier::spinoff_prover]
#[verifier::rlimit(40)]
pub proof fn lemma_delmap_remainders(next: u64)
    requires
        next % VALUE_SIZE == 0,
        next + VALUE_SIZE <= u64::MAX,
    ensures
        0 <= (next % DELMAP_SPAN) / ENTRY_SPAN < 32766,
        (next % ENTRY_SPAN) % 128 == 0,
        next % ENTRY_SPAN <= ENTRY_SPAN - 128,
        (next / VALUE_SIZE) % 208 == (next % ENTRY_SPAN) / 128,
        next % DELMAP_SPAN == ENTRY_SPAN * ((next % DELMAP_SPAN) / ENTRY_SPAN) + next % ENTRY_SPAN,
        next % ENTRY_SPAN < ENTRY_SPAN - 128 ==> {
            &&& (next + 128) % (ENTRY_SPAN as int) == next % ENTRY_SPAN + 128
            &&& (next + 128) % (DELMAP_SPAN as int) == next % DELMAP_SPAN + 128
            &&& ((next + 128) % (DELMAP_SPAN as int)) / (ENTRY_SPAN as int) == (next % DELMAP_SPAN)
                / ENTRY_SPAN
            &&& span_floor((next + 128) as u64, DELMAP_SPAN) == span_floor(next, DELMAP_SPAN)
        },
        next % ENTRY_SPAN == ENTRY_SPAN - 128 && (next % DELMAP_SPAN) / ENTRY_SPAN < 32765 ==> {
            &&& (next + 128) % (ENTRY_SPAN as int) == 0
            &&& (next + 128) % (DELMAP_SPAN as int) == next % DELMAP_SPAN + 128
            &&& ((next + 128) % (DELMAP_SPAN as int)) / (ENTRY_SPAN as int) == (next % DELMAP_SPAN)
                / ENTRY_SPAN + 1
            &&& span_floor((next + 128) as u64, DELMAP_SPAN) == span_floor(next, DELMAP_SPAN)
        },
        next % ENTRY_SPAN == ENTRY_SPAN - 128 && (next % DELMAP_SPAN) / ENTRY_SPAN == 32765 ==> (next
            + 128) % (DELMAP_SPAN as int) == 0,
{
    let big = next / DELMAP_SPAN;
    let rest = next % DELMAP_SPAN;
    let e = rest / ENTRY_SPAN;
    let t = rest % ENTRY_SPAN;
    let k = next / 128;
    assert(next == DELMAP_SPAN * big + rest);
    assert(rest == ENTRY_SPAN * e + t);
    assert(next == 128 * k);
    assert(next == ENTRY_SPAN * (32766 * big + e) + t);
    lemma_div_mod_unique(next as int, ENTRY_SPAN as int, 32766 * big + e, t as int);
    assert(t == 128 * (k - 208 * (32766 * big + e)));
    let w = k - 208 * (32766 * big + e);
    assert(0 <= w < 208);
    assert(k == 208 * (32766 * big + e) + w);
    lemma_div_mod_unique(k as int, 208, 32766 * big + e, w);
    lemma_div_mod_unique(t as int, 128, w, 0);
    if t < ENTRY_SPAN - 128 {
        assert(next + 128 == ENTRY_SPAN * (32766 * big + e) + (t + 128));
        lemma_div_mod_unique(next + 128, ENTRY_SPAN as int, 32766 * big + e, t + 128);
        assert(next + 128 == DELMAP_SPAN * big + (rest + 128));
        lemma_div_mod_unique(next + 128, DELMAP_SPAN as int, big as int, rest + 128);
        assert(rest + 128 == ENTRY_SPAN * e + (t + 128));
        lemma_div_mod_unique(rest + 128, ENTRY_SPAN as int, e as int, t + 128);
    } else if e < 32765 {
        assert(next + 128 == ENTRY_SPAN * (32766 * big + e + 1) + 0);
        lemma_div_mod_unique(next + 128, ENTRY_SPAN as int, 32766 * big + e + 1, 0);
        assert(next + 128 == DELMAP_SPAN * big + (rest + 128));
        lemma_div_mod_unique(next + 128, DELMAP_SPAN as int, big as int, rest + 128);
        assert(rest + 128 == ENTRY_SPAN * (e + 1) + 0);
        lemma_div_mod_unique(rest + 128, ENTRY_SPAN as int, e + 1, 0);
    } else {
        assert(next + 128 == DELMAP_SPAN * (big + 1) + 0);
        lemma_div_mod_unique(next + 128, DELMAP_SPAN as int, big + 1, 0);
    }
}

/// Appending a slot whose bitmap entry lies in a sector that the bitmap has keeps
/// directory and write position in step. `place` is the write position before the
/// slot is appended; the entry of the slot lies at `entry`.
#[verifier::spinoff_prover]
#[verifier::rlimit(100)]
pub proof fn lemma_delmap_step_same(first: u64, next: u64, place: u64, delmap: Map<u64, u64>)
    requires
        first % VALUE_SIZE == 0,
        next % VALUE_SIZE == 0,
        first <= next,
        next + VALUE_SIZE <= u64::MAX,
        delmap_follows(first, next, place, delmap),
        next % DELMAP_SPAN != 0,
        delmap[span_floor(next, DELMAP_SPAN)] >= FIRST_SLOT_OFFSET,
        is_sector_base((delmap[span_floor(next, DELMAP_SPAN)] - FIRST_SLOT_OFFSET) as u64),
        delmap[span_floor(next, DELMAP_SPAN)] - FIRST_SLOT_OFFSET + SECTOR_SIZE <= u64::MAX,
    ensures
        ({
            let entry = entry_offset(
                delmap[span_floor(next, DELMAP_SPAN)],
                (next % DELMAP_SPAN) as int,
            );
            let after = if next % ENTRY_SPAN == 0 {
                place + DELMAP_ENTRY_SIZE
            } else {
                place as int
            };
            &&& after == entry + DELMAP_ENTRY_SIZE
            &&& place >= FIRST_SECTOR_OFFSET
            &&& next % ENTRY_SPAN == 0 ==> !is_sector_base(place) && place % SECTOR_SIZE
                != FIRST_SECTOR_OFFSET
            &&& after <= delmap[span_floor(next, DELMAP_SPAN)] - FIRST_SLOT_OFFSET + SECTOR_SIZE
            &&& delmap_follows(first, (next + VALUE_SIZE) as u64, after as u64, delmap)
        }),
{
    reveal(delmap_follows);
    lemma_delmap_remainders(next);
    let e = (next % DELMAP_SPAN) as int / (ENTRY_SPAN as int);
    let held = delmap[span_floor(next, DELMAP_SPAN)];
    assert(entry_offset(held, (next % DELMAP_SPAN) as int) == held + 32 * e);
    assert(0 <= e < 32766);
    assert(held + 32 * e + 32 <= held - FIRST_SLOT_OFFSET + SECTOR_SIZE);
    let after = (next + VALUE_SIZE) as u64;
    let base = (delmap[span_floor(next, DELMAP_SPAN)] - FIRST_SLOT_OFFSET) as u64;
    lemma_next_sector(base);
    assert forall|key: u64| #[trigger]
        delmap.contains_key(key) <==> (key % DELMAP_SPAN == 0 && span_floor(first, DELMAP_SPAN)
            <= key < after) by {
        if key % DELMAP_SPAN == 0 && next <= key < after {
            lemma_span_multiple(key, DELMAP_SPAN);
        }
    }
}

/// Appending the first slot that a new sector of the bitmap covers keeps directory
/// and write position in step.
#[verifier::spinoff_prover]
#[verifier::rlimit(40)]
pub proof fn lemma_delmap_step_new(
    first: u64,
    next: u64,
    place: u64,
    delmap: Map<u64, u64>,
    fresh: u64,
)
    requires
        first % VALUE_SIZE == 0,
        next % VALUE_SIZE == 0,
        first <= next,
        next + VALUE_SIZE <= u64::MAX,
        delmap_follows(first, next, place, delmap),
        next % DELMAP_SPAN == 0,
        fresh + SECTOR_SIZE <= u64::MAX,
    ensures
        next % ENTRY_SPAN == 0,
        !delmap.contains_key(next),
        delmap_follows(
            first,
            (next + VALUE_SIZE) as u64,
            (fresh + FIRST_SLOT_OFFSET + DELMAP_ENTRY_SIZE) as u64,
            delmap.insert(next, (fresh + FIRST_SLOT_OFFSET) as u64),
        ),
{
    reveal(delmap_follows);
    let after = (next + VALUE_SIZE) as u64;
    let grown = delmap.insert(next, (fresh + FIRST_SLOT_OFFSET) as u64);
    lemma_delmap_remainders(next);
    assert forall|key: u64| #[trigger]
        grown.contains_key(key) <==> (key % DELMAP_SPAN == 0 && span_floor(first, DELMAP_SPAN)
            <= key < after) by {
        if key % DELMAP_SPAN == 0 && next <= key < after {
            lemma_span_multiple(key, DELMAP_SPAN);
        }
        if key != next {
            assert(grown.contains_key(key) <==> delmap.contains_key(key));
        }
    }
}

/// Moving the start of the log on by one slot keeps the directory of the value log
/// in step, once the sector that the start has left is dropped from it.
#[verifier::spinoff_prover]
#[verifier::rlimit(40)]
pub proof fn lemma_values_retire(first: u64, next: u64, place: u64, values: Map<u64, u64>)
    requires
        first % VALUE_SIZE == 0,
        next % VALUE_SIZE == 0,
        first < next,
        values_follow(first, next, place, values),
    ensures
        values.contains_key(span_floor(first, VALUE_SPAN)),
        (first + 128) % (VALUE_SPAN as int) == 0 ==> {
            &&& span_floor(first, VALUE_SPAN) + VALUE_SPAN == first + 128
            &&& values_follow(
                (first + 128) as u64,
                next,
                place,
                values.remove(span_floor(first, VALUE_SPAN)),
            )
        },
        (first + 128) % (VALUE_SPAN as int) != 0 ==> values_follow(
            (first + 128) as u64,
            next,
            place,
            values,
        ),
{
    reveal(values_follow);
    lemma_value_remainders(first);
    let moved = (first + 128) as u64;
    let old_key = span_floor(first, VALUE_SPAN);
    if moved % VALUE_SPAN == 0 {
        let fewer = values.remove(old_key);
        assert forall|key: u64| #[trigger]
            fewer.contains_key(key) <==> (key % VALUE_SPAN == 0 && span_floor(moved, VALUE_SPAN)
                <= key < next) by {
            if key % VALUE_SPAN == 0 && old_key < key < moved {
                lemma_multiples_apart(old_key, key, VALUE_SPAN);
            }
        }
        if next % VALUE_SPAN != 0 {
            crate::logshape::lemma_span_floor_greatest(moved, next, VALUE_SPAN);
        }
    }
}

/// Moving the start of the log on by one slot keeps the directory of the bitmap in
/// step, once the sector that the start has left is dropped from it.
#[verifier::spinoff_prover]
#[verifier::rlimit(40)]
pub proof fn lemma_delmap_retire(first: u64, next: u64, place: u64, delmap: Map<u64, u64>)
    requires
        first % VALUE_SIZE == 0,
        next % VALUE_SIZE == 0,
        first < next,
        delmap_follows(first, next, place, delmap),
    ensures
        delmap.contains_key(span_floor(first, DELMAP_SPAN)),
        (first + 128) % (DELMAP_SPAN as int) == 0 ==> {
            &&& span_floor(first, DELMAP_SPAN) + DELMAP_SPAN == first + 128
            &&& delmap_follows(
                (first + 128) as u64,
                next,
                place,
                delmap.remove(span_floor(first, DELMAP_SPAN)),
            )
        },
        (first + 128) % (DELMAP_SPAN as int) != 0 ==> delmap_follows(
            (first + 128) as u64,
            next,
            place,
            delmap,
        ),
{
    reveal(delmap_follows);
    lemma_delmap_remainders(first);
    let moved = (first + 128) as u64;
    let old_key = span_floor(first, DELMAP_SPAN);
    let big = first / DELMAP_SPAN;
    assert(first == DELMAP_SPAN * big + first % DELMAP_SPAN);
    if moved % DELMAP_SPAN == 0 {
        let other = moved / DELMAP_SPAN;
        assert(moved == DELMAP_SPAN * other + moved % DELMAP_SPAN);
        assert(other == big + 1) by {
            if other <= big {
                assert(DELMAP_SPAN * other <= DELMAP_SPAN * big);
            }
            if other >= big + 2 {
                assert(DELMAP_SPAN * other >= DELMAP_SPAN * big + 2 * DELMAP_SPAN);
            }
        }
        let fewer = delmap.remove(old_key);
        assert forall|key: u64| #[trigger]
            fewer.contains_key(key) <==> (key % DELMAP_SPAN == 0 && span_floor(
                moved,
                DELMAP_SPAN,
            ) <= key < next) by {
            if key % DELMAP_SPAN == 0 && old_key < key < moved {
                lemma_multiples_apart(old_key, key, DELMAP_SPAN);
            }
        }
        if next % DELMAP_SPAN != 0 {
            crate::logshape::lemma_span_floor_greatest(moved, next, DELMAP_SPAN);
        }
    } else {
        let rest = first % DELMAP_SPAN;
        assert(rest + 128 < DELMAP_SPAN) by {
            if rest + 128 >= DELMAP_SPAN {
                lemma_span_multiple(DELMAP_SPAN, DELMAP_SPAN);
                assert(rest % 128 == 0) by {
                    lemma_span_multiple(old_key, DELMAP_SPAN);
                }
                assert(rest + 128 == DELMAP_SPAN);
                assert(moved == DELMAP_SPAN * (big + 1) + 0);
                lemma_div_mod_unique(moved as int, DELMAP_SPAN as int, big + 1, 0);
            }
        }
        assert(moved == DELMAP_SPAN * big + (rest + 128));
        lemma_div_mod_unique(moved as int, DELMAP_SPAN as int, big as int, rest + 128);
    }
}

/// Two different multiples of a span lie a whole span apart.
#[verifier::spinoff_prover]
#[verifier::rlimit(40)]
pub proof fn lemma_multiples_apart(a: u64, b: u64, span: u64)
    requires
        a % span == 0,
        b % span == 0,
        a < b,
        span == VALUE_SPAN || span == DELMAP_SPAN,
    ensures
        a + span <= b,
{
    let qa = a / span;
    let qb = b / span;
    if span == VALUE_SPAN {
        assert(a == VALUE_SPAN * qa + a % VALUE_SPAN);
        assert(b == VALUE_SPAN * qb + b % VALUE_SPAN);
        if qb <= qa {
            assert(VALUE_SPAN * qb <= VALUE_SPAN * qa);
        }
    } else {
        assert(a == DELMAP_SPAN * qa + a % DELMAP_SPAN);
        assert(b == DELMAP_SPAN * qb + b % DELMAP_SPAN);
        if qb <= qa {
            assert(DELMAP_SPAN * qb <= DELMAP_SPAN * qa);
        }
    }
}

/// What the directory of the value log holds for the end of the log: within a sector
/// the sector, at the end of a sector nothing yet, and the write position is then the
/// start of a sector.
#[verifier::spinoff_prover]
#[verifier::rlimit(40)]
pub proof fn lemma_values_has(first: u64, next: u64, place: u64, values: Map<u64, u64>)
    requires
        first % VALUE_SIZE == 0,
        next % VALUE_SIZE == 0,
        first <= next,
        values_follow(first, next, place, values),
    ensures
        next % VALUE_SPAN != 0 ==> values.contains_key(span_floor(next, VALUE_SPAN)),
        next % VALUE_SPAN == 0 ==> {
            &&& is_sector_base(place)
            &&& place % SECTOR_SIZE == FIRST_SECTOR_OFFSET
            &&& span_floor(next, VALUE_SPAN) == next
        },
{
    reveal(values_follow);
    if next % VALUE_SPAN != 0 {
        crate::logshape::lemma_span_floor_monotone(first, next, VALUE_SPAN);
        crate::logshape::lemma_span_floor_monotone(next, next, VALUE_SPAN);
    }
}

/// What the directory of the bitmap holds for the end of the log.
#[verifier::spinoff_prover]
#[verifier::rlimit(40)]
pub proof fn lemma_delmap_has(first: u64, next: u64, place: u64, delmap: Map<u64, u64>)
    requires
        first % VALUE_SIZE == 0,
        next % VALUE_SIZE == 0,
        first <= next,
        delmap_follows(first, next, place, delmap),
    ensures
        next % DELMAP_SPAN != 0 ==> delmap.contains_key(span_floor(next, DELMAP_SPAN)),
        next % DELMAP_SPAN == 0 ==> {
            &&& is_sector_base(place)
            &&& place % SECTOR_SIZE == FIRST_SECTOR_OFFSET
            &&& span_floor(next, DELMAP_SPAN) == next
            &&& next % ENTRY_SPAN == 0
        },
        (next / VALUE_SIZE) % 208 == 0 <==> next % ENTRY_SPAN == 0,
        0 <= (next / VALUE_SIZE) % 208 < 208,
{
    reveal(delmap_follows);
    if next % DELMAP_SPAN != 0 {
        crate::logshape::lemma_span_floor_monotone(first, next, DELMAP_SPAN);
        crate::logshape::lemma_span_floor_monotone(next, next, DELMAP_SPAN);
    }
    if next + VALUE_SIZE <= u64::MAX {
        lemma_delmap_remainders(next);
    } else {
        let k = next / 128;
        let e = next / ENTRY_SPAN;
        let t = next % ENTRY_SPAN;
        assert(next == ENTRY_SPAN * e + t);
        assert(next == 128 * k);
        let w = k - 208 * e;
        assert(t == 128 * w);
        assert(k == 208 * e + w);
        lemma_div_mod_unique(k as int, 208, e as int, w);
    }
    if next % DELMAP_SPAN == 0 {
        let big = next / DELMAP_SPAN;
        assert(next == DELMAP_SPAN * big + next % DELMAP_SPAN);
        assert(next == ENTRY_SPAN * (32766 * big) + 0);
        lemma_div_mod_unique(next as int, ENTRY_SPAN as int, 32766 * big, 0);
    }
}

} // verus!
