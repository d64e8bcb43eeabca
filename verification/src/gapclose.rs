use vstd::prelude::*;
use crate::codec::home_slot;
use crate::codec::lemma_zero_entry;
use crate::codec::zeros;
use crate::image::Image;
use crate::layout::NO_VALUE;
use crate::layout::SLOTS_IN_SECTOR;
use crate::probing::dist;
use crate::probing::same_slots_but;

verus! {

impl Image {
    /// The slot from which the search for the hash in `slot` starts.
    pub open spec fn home_of(self, base: u64, slot: int) -> int {
        home_slot(self.slot_hash(base, slot)) as int
    }

    /// Whether slot `t` lies on the way of the search for the hash in `slot`, before
    /// that slot.
    pub open spec fn on_way(self, base: u64, slot: int, t: int) -> bool {
        0 <= t < SLOTS_IN_SECTOR && dist(self.home_of(base, slot), t) < dist(
            self.home_of(base, slot),
            slot,
        )
    }

    /// Whether the way of the search to the entry in `slot` is clear but for the gap at
    /// `target`: the search passes over every slot on the way, the gap set aside.
    pub open spec fn clear_but(self, base: u64, target: int, slot: int) -> bool {
        forall|t: int|
            self.on_way(base, slot, t) && t != target ==> #[trigger] self.passes(
                base,
                self.slot_hash(base, slot),
                t,
            )
    }

    /// Whether `slot` holds an entry in use, the gap at `target` set aside.
    pub open spec fn in_use_but(self, base: u64, target: int, slot: int) -> bool {
        0 <= slot < SLOTS_IN_SECTOR && slot != target && self.slot_value(base, slot) != NO_VALUE
    }
}

/// Whether the entry in `slot` of `image`, which is in use and not the gap at `target`,
/// is the entry `bytes`.
pub open spec fn entry_is(image: Image, base: u64, target: int, slot: int, bytes: Seq<u8>) -> bool {
    &&& 0 <= slot < SLOTS_IN_SECTOR
    &&& slot != target
    &&& crate::codec::entry_value_of(bytes) != NO_VALUE
    &&& image.slot(base, slot) == bytes
}

/// What holds while the gap that a deletion has left is closed. `orig` is the sector
/// before the deletion, `now` the sector as it stands; the gap was at slot `start`
/// first and is at `target` now, and the `steps - 1` slots behind `start` have been
/// looked at.
pub open spec fn gap_inv(
    orig: Image,
    now: Image,
    base: u64,
    start: int,
    target: int,
    steps: int,
) -> bool {
    &&& 0 <= start < SLOTS_IN_SECTOR
    &&& 0 <= target < SLOTS_IN_SECTOR
    &&& 1 <= steps <= SLOTS_IN_SECTOR
    &&& dist(start, target) < steps
    &&& now.slot_value(base, target) != NO_VALUE
    // every slot looked at is in use
    &&& forall|q: int|
        0 <= q < SLOTS_IN_SECTOR && dist(start, q) < steps ==> #[trigger] now.slot_value(base, q)
            != NO_VALUE
    // the ways are clear but for the gap
    &&& forall|p: int| #[trigger] now.in_use_but(base, target, p) ==> now.clear_but(base, target, p)
    // the gap lies on the way only of entries not looked at yet
    &&& forall|p: int|
        #[trigger] now.in_use_but(base, target, p) && now.on_way(base, p, target) ==> dist(
            start,
            p,
        ) >= steps
    // no two entries hold one hash
    &&& forall|p: int, q: int|
        #![trigger now.in_use_but(base, target, p), now.in_use_but(base, target, q)]
        now.in_use_but(base, target, p) && now.in_use_but(base, target, q) && p != q
            ==> now.slot_hash(base, p) != now.slot_hash(base, q)
    // the entries are those of the sector before, but for the deleted one
    &&& forall|p: int|
        #[trigger] now.in_use_but(base, target, p) ==> exists|q: int|
            #[trigger] entry_is(orig, base, start, q, now.slot(base, p))
    &&& forall|q: int|
        #[trigger] orig.in_use_but(base, start, q) ==> exists|p: int|
            #[trigger] entry_is(now, base, target, p, orig.slot(base, q))
    // the sector has an empty slot
    &&& exists|z: int|
        0 <= z < SLOTS_IN_SECTOR && z != target && #[trigger] now.slot_value(base, z) == NO_VALUE
}

/// The invariant holds when the closing of the gap starts.
#[verifier::spinoff_prover]
pub proof fn lemma_gap_init(orig: Image, now: Image, base: u64, start: int)
    requires
        orig.searchable(base),
        orig.has_room(base),
        0 <= start < SLOTS_IN_SECTOR,
        orig.slot_value(base, start) != NO_VALUE,
        forall|j: int| 0 <= j < SLOTS_IN_SECTOR ==> #[trigger] now.slot(base, j) == orig.slot(base, j),
    ensures
        gap_inv(orig, now, base, start, start, 1),
{
    assert forall|p: int| #[trigger] now.in_use_but(base, start, p) implies now.clear_but(
        base,
        start,
        p,
    ) by {
        assert(now.slot(base, p) == orig.slot(base, p));
        assert(orig.slot_value(base, p) != NO_VALUE);
        assert(orig.settled(base, p));
        assert forall|t: int| now.on_way(base, p, t) && t != start implies #[trigger] now.passes(
            base,
            now.slot_hash(base, p),
            t,
        ) by {
            assert(orig.passes(base, orig.slot_hash(base, p), t));
            assert(now.slot(base, t) == orig.slot(base, t));
        }
    }
    assert forall|p: int, q: int|
        #![trigger now.in_use_but(base, start, p), now.in_use_but(base, start, q)]
        now.in_use_but(base, start, p) && now.in_use_but(base, start, q) && p
            != q implies now.slot_hash(base, p) != now.slot_hash(base, q) by {
        assert(now.slot(base, p) == orig.slot(base, p));
        assert(now.slot(base, q) == orig.slot(base, q));
        if now.slot_hash(base, p) == now.slot_hash(base, q) {
            crate::probing::lemma_held_once(orig, base, orig.slot_hash(base, p), p, q);
        }
    }
    assert forall|p: int| #[trigger] now.in_use_but(base, start, p) implies exists|q: int|
        #[trigger] entry_is(orig, base, start, q, now.slot(base, p)) by {
        assert(now.slot(base, p) == orig.slot(base, p));
        assert(entry_is(orig, base, start, p, now.slot(base, p)));
    }
    assert forall|q: int| #[trigger] orig.in_use_but(base, start, q) implies exists|p: int|
        #[trigger] entry_is(now, base, start, p, orig.slot(base, q)) by {
        assert(now.slot(base, q) == orig.slot(base, q));
        assert(entry_is(now, base, start, q, orig.slot(base, q)));
    }
    let z = choose|z: int|
        0 <= z < SLOTS_IN_SECTOR && #[trigger] orig.slot_value(base, z) == NO_VALUE;
    assert(now.slot(base, z) == orig.slot(base, z));
    assert(now.slot_value(base, z) == NO_VALUE);
    assert(now.slot(base, start) == orig.slot(base, start));
    assert forall|q: int|
        0 <= q < SLOTS_IN_SECTOR && dist(start, q) < 1 implies #[trigger] now.slot_value(base, q)
        != NO_VALUE by {
        assert(q == start);
    }
}

/// The invariant holds on when the entry looked at stays where it is: the gap does not
/// lie on the way to it.
#[verifier::spinoff_prover]
pub proof fn lemma_gap_keep(
    orig: Image,
    now: Image,
    base: u64,
    start: int,
    target: int,
    steps: int,
    cur: int,
)
    requires
        gap_inv(orig, now, base, start, target, steps),
        steps < SLOTS_IN_SECTOR,
        0 <= cur < SLOTS_IN_SECTOR,
        dist(start, cur) == steps,
        now.slot_value(base, cur) != NO_VALUE,
        dist(now.home_of(base, cur), target) >= dist(now.home_of(base, cur), cur),
    ensures
        gap_inv(orig, now, base, start, target, steps + 1),
{
    assert forall|q: int|
        0 <= q < SLOTS_IN_SECTOR && dist(start, q) < steps + 1 implies #[trigger] now.slot_value(
        base,
        q,
    ) != NO_VALUE by {
        if dist(start, q) == steps {
            assert(q == cur);
        }
    }
    assert forall|p: int|
        #[trigger] now.in_use_but(base, target, p) && now.on_way(base, p, target) implies dist(
        start,
        p,
    ) >= steps + 1 by {
        if dist(start, p) == steps {
            assert(p == cur);
        }
    }
}

/// The invariant holds on when the entry looked at moves into the gap, which lies on
/// the way to it, and leaves the gap behind where it was.
#[verifier::spinoff_prover]
#[verifier::rlimit(50)]
pub proof fn lemma_gap_move(
    orig: Image,
    now: Image,
    after: Image,
    base: u64,
    start: int,
    target: int,
    steps: int,
    cur: int,
)
    requires
        gap_inv(orig, now, base, start, target, steps),
        steps < SLOTS_IN_SECTOR,
        0 <= cur < SLOTS_IN_SECTOR,
        dist(start, cur) == steps,
        now.slot_value(base, cur) != NO_VALUE,
        dist(now.home_of(base, cur), target) < dist(now.home_of(base, cur), cur),
        same_slots_but(now, after, base, target),
        after.slot(base, target) == now.slot(base, cur),
    ensures
        gap_inv(orig, after, base, start, cur, steps + 1),
{
    assert(cur != target);
    assert(now.in_use_but(base, target, cur));
    assert(after.slot(base, cur) == now.slot(base, cur));
    let moved = now.slot_hash(base, cur);
    // every slot looked at is in use
    assert forall|q: int|
        0 <= q < SLOTS_IN_SECTOR && dist(start, q) < steps + 1 implies #[trigger] after.slot_value(
        base,
        q,
    ) != NO_VALUE by {
        if q != target {
            assert(after.slot(base, q) == now.slot(base, q));
            if dist(start, q) == steps {
                assert(q == cur);
            } else {
                assert(now.slot_value(base, q) != NO_VALUE);
            }
        }
    }
    // the ways are clear but for the gap
    assert forall|p: int| #[trigger] after.in_use_but(base, cur, p) implies after.clear_but(
        base,
        cur,
        p,
    ) by {
        if p == target {
            assert(now.clear_but(base, target, cur));
            assert forall|t: int|
                after.on_way(base, p, t) && t != cur implies #[trigger] after.passes(
                base,
                after.slot_hash(base, p),
                t,
            ) by {
                assert(now.on_way(base, cur, t));
                assert(t != target);
                assert(now.passes(base, moved, t));
                assert(after.slot(base, t) == now.slot(base, t));
            }
        } else {
            assert(after.slot(base, p) == now.slot(base, p));
            assert(now.in_use_but(base, target, p));
            assert(now.clear_but(base, target, p));
            assert forall|t: int|
                after.on_way(base, p, t) && t != cur implies #[trigger] after.passes(
                base,
                after.slot_hash(base, p),
                t,
            ) by {
                assert(now.on_way(base, p, t));
                if t != target {
                    assert(now.passes(base, now.slot_hash(base, p), t));
                    assert(after.slot(base, t) == now.slot(base, t));
                } else {
                    assert(now.slot_hash(base, p) != now.slot_hash(base, cur));
                }
            }
        }
    }
    // the gap lies on the way only of entries not looked at yet
    let z = choose|z: int|
        0 <= z < SLOTS_IN_SECTOR && z != target && #[trigger] now.slot_value(base, z) == NO_VALUE;
    assert(dist(start, z) > steps) by {
        if dist(start, z) < steps {
            assert(now.slot_value(base, z) != NO_VALUE);
        }
        if dist(start, z) == steps {
            assert(z == cur);
        }
    }
    assert forall|p: int|
        #[trigger] after.in_use_but(base, cur, p) && after.on_way(base, p, cur) implies dist(
        start,
        p,
    ) >= steps + 1 by {
        if p == target {
            // the entry that moved: the new gap lies behind it
            assert(false);
        } else {
            assert(after.slot(base, p) == now.slot(base, p));
            assert(now.in_use_but(base, target, p));
            assert(now.on_way(base, p, cur));
            if dist(start, p) < steps {
                // an entry looked at before: its way would cross the empty slot
                assert(now.clear_but(base, target, p));
                assert(now.on_way(base, p, z));
                assert(now.passes(base, now.slot_hash(base, p), z));
            }
            if dist(start, p) == steps {
                assert(p == cur);
            }
        }
    }
    // no two entries hold one hash
    assert forall|p: int, q: int|
        #![trigger after.in_use_but(base, cur, p), after.in_use_but(base, cur, q)]
        after.in_use_but(base, cur, p) && after.in_use_but(base, cur, q) && p
            != q implies after.slot_hash(base, p) != after.slot_hash(base, q) by {
        let from_p = if p == target {
            cur
        } else {
            p
        };
        let from_q = if q == target {
            cur
        } else {
            q
        };
        if p != target {
            assert(after.slot(base, p) == now.slot(base, p));
        }
        if q != target {
            assert(after.slot(base, q) == now.slot(base, q));
        }
        assert(now.in_use_but(base, target, from_p));
        assert(now.in_use_but(base, target, from_q));
    }
    // the entries are those of the sector before
    assert forall|p: int| #[trigger] after.in_use_but(base, cur, p) implies exists|q: int|
        #[trigger] entry_is(orig, base, start, q, after.slot(base, p)) by {
        let from_p = if p == target {
            cur
        } else {
            p
        };
        if p != target {
            assert(after.slot(base, p) == now.slot(base, p));
        }
        assert(now.in_use_but(base, target, from_p));
        let q = choose|q: int| #[trigger] entry_is(orig, base, start, q, now.slot(base, from_p));
        assert(entry_is(orig, base, start, q, after.slot(base, p)));
    }
    assert forall|q: int| #[trigger] orig.in_use_but(base, start, q) implies exists|p: int|
        #[trigger] entry_is(after, base, cur, p, orig.slot(base, q)) by {
        let at = choose|p: int| #[trigger] entry_is(now, base, target, p, orig.slot(base, q));
        let p = if at == cur {
            target
        } else {
            at
        };
        if at != cur {
            assert(after.slot(base, p) == now.slot(base, p));
        }
        assert(entry_is(after, base, cur, p, orig.slot(base, q)));
    }
    assert(after.slot(base, z) == now.slot(base, z));
    assert(z != cur);
    assert(0 <= z < SLOTS_IN_SECTOR && z != cur && after.slot_value(base, z) == NO_VALUE);
    assert(dist(start, cur) < steps + 1);
    assert(after.slot_value(base, cur) != NO_VALUE);
    assert(forall|p: int| #[trigger] after.in_use_but(base, cur, p) ==> after.clear_but(base, cur, p));
    assert(forall|p: int|
        #[trigger] after.in_use_but(base, cur, p) && after.on_way(base, p, cur) ==> dist(start, p)
            >= steps + 1);
    assert(forall|p: int|
        #[trigger] after.in_use_but(base, cur, p) ==> exists|q: int|
            #[trigger] entry_is(orig, base, start, q, after.slot(base, p)));
    assert(forall|q: int|
        #[trigger] orig.in_use_but(base, start, q) ==> exists|p: int|
            #[trigger] entry_is(after, base, cur, p, orig.slot(base, q)));
    assert(forall|q: int|
        0 <= q < SLOTS_IN_SECTOR && dist(start, q) < steps + 1 ==> #[trigger] after.slot_value(
            base,
            q,
        ) != NO_VALUE);
    assert(forall|p: int, q: int|
        #![trigger after.in_use_but(base, cur, p), after.in_use_but(base, cur, q)]
        after.in_use_but(base, cur, p) && after.in_use_but(base, cur, q) && p != q
            ==> after.slot_hash(base, p) != after.slot_hash(base, q));
}

/// When the closing of the gap ends, and the gap is emptied, the sector is searchable
/// again, and holds the entries that it held before but for the deleted one.
#[verifier::spinoff_prover]
#[verifier::rlimit(50)]
pub proof fn lemma_gap_done(
    orig: Image,
    now: Image,
    after: Image,
    base: u64,
    start: int,
    target: int,
    steps: int,
    cur: int,
)
    requires
        gap_inv(orig, now, base, start, target, steps),
        steps == SLOTS_IN_SECTOR || (0 <= cur < SLOTS_IN_SECTOR && dist(start, cur) == steps
            && now.slot_value(base, cur) == NO_VALUE),
        same_slots_but(now, after, base, target),
        after.slot(base, target) == zeros(32),
    ensures
        after.searchable(base),
        after.has_room(base),
        forall|p: int|
            0 <= p < SLOTS_IN_SECTOR && #[trigger] after.slot_value(base, p) != NO_VALUE
                ==> exists|q: int| #[trigger] entry_is(orig, base, start, q, after.slot(base, p)),
        forall|q: int|
            #[trigger] orig.in_use_but(base, start, q) ==> exists|p: int|
                #[trigger] entry_is(after, base, -1, p, orig.slot(base, q)),
{
    lemma_zero_entry();
    assert(after.slot_value(base, target) == NO_VALUE);
    assert forall|p: int|
        0 <= p < SLOTS_IN_SECTOR && #[trigger] after.slot_value(base, p)
            != NO_VALUE implies after.settled(base, p) by {
        assert(p != target);
        assert(after.slot(base, p) == now.slot(base, p));
        assert(now.in_use_but(base, target, p));
        assert(now.clear_but(base, target, p));
        if now.on_way(base, p, target) {
            assert(dist(start, p) >= steps);
            assert(steps < SLOTS_IN_SECTOR);
            assert(p != cur);
            assert(now.on_way(base, p, cur));
            assert(now.passes(base, now.slot_hash(base, p), cur));
        }
        assert forall|t: int|
            0 <= t < SLOTS_IN_SECTOR && dist(home_slot(after.slot_hash(base, p)) as int, t) < dist(
                home_slot(after.slot_hash(base, p)) as int,
                p,
            ) implies #[trigger] after.passes(base, after.slot_hash(base, p), t) by {
            assert(now.on_way(base, p, t));
            assert(t != target);
            assert(now.passes(base, now.slot_hash(base, p), t));
            assert(after.slot(base, t) == now.slot(base, t));
        }
    }
    assert forall|p: int|
        0 <= p < SLOTS_IN_SECTOR && #[trigger] after.slot_value(base, p)
            != NO_VALUE implies exists|q: int|
        #[trigger] entry_is(orig, base, start, q, after.slot(base, p)) by {
        assert(p != target);
        assert(after.slot(base, p) == now.slot(base, p));
        assert(now.in_use_but(base, target, p));
        let q = choose|q: int| #[trigger] entry_is(orig, base, start, q, now.slot(base, p));
        assert(entry_is(orig, base, start, q, after.slot(base, p)));
    }
    assert forall|q: int| #[trigger] orig.in_use_but(base, start, q) implies exists|p: int|
        #[trigger] entry_is(after, base, -1, p, orig.slot(base, q)) by {
        let p = choose|p: int| #[trigger] entry_is(now, base, target, p, orig.slot(base, q));
        assert(after.slot(base, p) == now.slot(base, p));
        assert(entry_is(after, base, -1, p, orig.slot(base, q)));
    }
}

/// What the closing of the gap at slot `start` achieves: the sector is searchable and
/// has room, and holds the entries that it held before but for the one at `start`.
pub open spec fn gap_closed(orig: Image, after: Image, base: u64, start: int) -> bool {
    &&& after.searchable(base)
    &&& after.has_room(base)
    &&& forall|p: int|
        0 <= p < SLOTS_IN_SECTOR && #[trigger] after.slot_value(base, p) != NO_VALUE
            ==> exists|q: int| #[trigger] entry_is(orig, base, start, q, after.slot(base, p))
    &&& forall|q: int|
        #[trigger] orig.in_use_but(base, start, q) ==> exists|p: int|
            #[trigger] entry_is(after, base, -1, p, orig.slot(base, q))
}

} // verus!
