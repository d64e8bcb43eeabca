use vstd::prelude::*;
use crate::image::Image;
use crate::layout::VALUE_SIZE;
use crate::linked::slot_of;
use crate::logframe::lemma_marks_kept_twice;
use crate::logframe::lemma_marks_kept_within;
use crate::logframe::lemma_slot_between;
use crate::logframe::lemma_slots_kept_later;
use crate::logframe::lemma_slots_kept_shorter;
use crate::logframe::lemma_slots_kept_twice;
use crate::logframe::marks_kept;
use crate::logframe::slots_kept;

verus! {

/// Whether `now` is `orig` after the first `k` slots of its log, all live, were
/// moved to the end of the log: the log starts and ends `k` slots later, the copies
/// stand behind the old end, in order and live, and the slots between are kept.
pub open spec fn moved_live(
    orig: Image,
    orig_values: Map<u64, u64>,
    orig_delmap: Map<u64, u64>,
    now: Image,
    now_values: Map<u64, u64>,
    now_delmap: Map<u64, u64>,
    k: int,
) -> bool {
    &&& now.first_logical() == orig.first_logical() + 128 * k
    &&& now.next_logical() == orig.next_logical() + 128 * k
    &&& forall|i: int|
        0 <= i < k ==> now.value_at(now_values, #[trigger] slot_of(orig.next_logical(), i))
            == orig.value_at(orig_values, slot_of(orig.first_logical(), i)) && now.is_live(
            now_delmap,
            slot_of(orig.next_logical(), i),
        )
    &&& slots_kept(
        orig,
        orig_values,
        now,
        now_values,
        (orig.first_logical() + 128 * k) as u64,
        orig.next_logical(),
    )
    &&& marks_kept(
        orig,
        orig_delmap,
        now,
        now_delmap,
        (orig.first_logical() + 128 * k) as u64,
        orig.next_logical(),
    )
}

/// Whether `now` is `orig` after the start of its log was moved past the first `k`
/// slots, all deleted: the log starts `k` slots later and ends where it ended, and
/// the slots between are kept.
pub open spec fn moved_dead(
    orig: Image,
    orig_values: Map<u64, u64>,
    orig_delmap: Map<u64, u64>,
    now: Image,
    now_values: Map<u64, u64>,
    now_delmap: Map<u64, u64>,
    k: int,
) -> bool {
    &&& now.first_logical() == orig.first_logical() + 128 * k
    &&& now.next_logical() == orig.next_logical()
    &&& slots_kept(
        orig,
        orig_values,
        now,
        now_values,
        (orig.first_logical() + 128 * k) as u64,
        orig.next_logical(),
    )
    &&& marks_kept(
        orig,
        orig_delmap,
        now,
        now_delmap,
        (orig.first_logical() + 128 * k) as u64,
        orig.next_logical(),
    )
}

/// Whether the first `n` slots of the log are all live.
pub open spec fn run_live(image: Image, delmap: Map<u64, u64>, n: int) -> bool {
    forall|i: int|
        0 <= i < n ==> image.is_live(delmap, #[trigger] slot_of(image.first_logical(), i))
}

/// Whether the first `n` slots of the log are all deleted.
pub open spec fn run_dead(image: Image, delmap: Map<u64, u64>, n: int) -> bool {
    forall|i: int|
        0 <= i < n ==> !image.is_live(delmap, #[trigger] slot_of(image.first_logical(), i))
}

/// Whether `after` is `before` after its first slot was moved: to the end of the log
/// where it was live, out of the log where it was deleted.
pub open spec fn one_moved(
    before: Image,
    before_values: Map<u64, u64>,
    before_delmap: Map<u64, u64>,
    after: Image,
    after_values: Map<u64, u64>,
    after_delmap: Map<u64, u64>,
) -> bool {
    &&& after.first_logical() == before.first_logical() + 128
    &&& before.is_live(before_delmap, before.first_logical()) ==> {
        &&& after.next_logical() == before.next_logical() + 128
        &&& after.value_at(after_values, before.next_logical()) == before.value_at(
            before_values,
            before.first_logical(),
        )
        &&& after.is_live(after_delmap, before.next_logical())
    }
    &&& !before.is_live(before_delmap, before.first_logical()) ==> after.next_logical()
        == before.next_logical()
    &&& slots_kept(
        before,
        before_values,
        after,
        after_values,
        (before.first_logical() + 128) as u64,
        before.next_logical(),
    )
    &&& marks_kept(
        before,
        before_delmap,
        after,
        after_delmap,
        (before.first_logical() + 128) as u64,
        before.next_logical(),
    )
}

/// Whether `now` is `orig` with its log compacted: the log starts and ends no
/// earlier, and the slots of `orig` that the log still holds read as they did and
/// are live if they were.
pub open spec fn compacted(
    orig: Image,
    orig_values: Map<u64, u64>,
    orig_delmap: Map<u64, u64>,
    now: Image,
    now_values: Map<u64, u64>,
    now_delmap: Map<u64, u64>,
) -> bool {
    &&& orig.first_logical() <= now.first_logical()
    &&& orig.next_logical() <= now.next_logical()
    &&& slots_kept(orig, orig_values, now, now_values, now.first_logical(), orig.next_logical())
    &&& marks_kept(orig, orig_delmap, now, now_delmap, now.first_logical(), orig.next_logical())
}

/// A log is its own compaction.
pub proof fn lemma_compacted_same(image: Image, values: Map<u64, u64>, delmap: Map<u64, u64>)
    ensures
        compacted(image, values, delmap, image, values, delmap),
{
}

/// Moving the first slot compacts the log.
pub proof fn lemma_compacted_one(
    before: Image,
    before_values: Map<u64, u64>,
    before_delmap: Map<u64, u64>,
    after: Image,
    after_values: Map<u64, u64>,
    after_delmap: Map<u64, u64>,
)
    requires
        one_moved(before, before_values, before_delmap, after, after_values, after_delmap),
        before.first_logical() + 128 <= u64::MAX,
    ensures
        compacted(before, before_values, before_delmap, after, after_values, after_delmap),
{
}

/// Changes that keep the ends of the log, its slots and its marks compact the log.
pub proof fn lemma_compacted_kept(
    before: Image,
    values: Map<u64, u64>,
    delmap: Map<u64, u64>,
    after: Image,
)
    requires
        after.first_logical() == before.first_logical(),
        after.next_logical() == before.next_logical(),
        slots_kept(before, values, after, values, before.first_logical(), before.next_logical()),
        marks_kept(before, delmap, after, delmap, before.first_logical(), before.next_logical()),
    ensures
        compacted(before, values, delmap, after, values, delmap),
{
}

/// A compaction of a compaction is a compaction.
pub proof fn lemma_compacted_twice(
    a: Image,
    av: Map<u64, u64>,
    ad: Map<u64, u64>,
    b: Image,
    bv: Map<u64, u64>,
    bd: Map<u64, u64>,
    c: Image,
    cv: Map<u64, u64>,
    cd: Map<u64, u64>,
)
    requires
        compacted(a, av, ad, b, bv, bd),
        compacted(b, bv, bd, c, cv, cd),
    ensures
        compacted(a, av, ad, c, cv, cd),
{
    lemma_slots_kept_later(a, av, b, bv, b.first_logical(), c.first_logical(), a.next_logical());
    lemma_slots_kept_shorter(b, bv, c, cv, c.first_logical(), b.next_logical(), a.next_logical());
    lemma_slots_kept_twice(a, av, b, bv, c, cv, c.first_logical(), a.next_logical());
    lemma_marks_kept_within(
        a,
        ad,
        b,
        bd,
        b.first_logical(),
        a.next_logical(),
        c.first_logical(),
        a.next_logical(),
        u64::MAX,
    );
    lemma_marks_kept_within(
        b,
        bd,
        c,
        cd,
        c.first_logical(),
        b.next_logical(),
        c.first_logical(),
        a.next_logical(),
        u64::MAX,
    );
    lemma_marks_kept_twice(a, ad, b, bd, c, cd, c.first_logical(), a.next_logical());
}

/// Nothing has been moved at the start.
pub proof fn lemma_moved_none(image: Image, values: Map<u64, u64>, delmap: Map<u64, u64>)
    ensures
        moved_live(image, values, delmap, image, values, delmap, 0),
        moved_dead(image, values, delmap, image, values, delmap, 0),
{
}

/// Moving one more live slot.
#[verifier::spinoff_prover]
pub proof fn lemma_moved_live_step(
    orig: Image,
    orig_values: Map<u64, u64>,
    orig_delmap: Map<u64, u64>,
    before: Image,
    before_values: Map<u64, u64>,
    before_delmap: Map<u64, u64>,
    after: Image,
    after_values: Map<u64, u64>,
    after_delmap: Map<u64, u64>,
    k: int,
)
    requires
        0 <= k,
        orig.first_logical() % VALUE_SIZE == 0,
        orig.next_logical() % VALUE_SIZE == 0,
        orig.first_logical() + 128 * k < orig.next_logical(),
        orig.next_logical() + 128 * (k + 1) <= u64::MAX,
        moved_live(orig, orig_values, orig_delmap, before, before_values, before_delmap, k),
        orig.is_live(orig_delmap, slot_of(orig.first_logical(), k)),
        one_moved(before, before_values, before_delmap, after, after_values, after_delmap),
    ensures
        moved_live(orig, orig_values, orig_delmap, after, after_values, after_delmap, k + 1),
{
    let first = orig.first_logical();
    let next = orig.next_logical();
    let at = (first + 128 * k) as u64;
    let to = (next + 128 * k) as u64;
    let later = (first + 128 * (k + 1)) as u64;
    assert(slot_of(first, k) == at);
    assert(slot_of(next, k) == to);
    lemma_slot_between(at, at, next);
    assert(before.is_live(before_delmap, at) == orig.is_live(orig_delmap, at));
    assert(before.value_at(before_values, at) == orig.value_at(orig_values, at));
    lemma_slots_kept_later(orig, orig_values, before, before_values, at, later, next);
    lemma_slots_kept_shorter(before, before_values, after, after_values, later, to, next);
    lemma_slots_kept_twice(
        orig,
        orig_values,
        before,
        before_values,
        after,
        after_values,
        later,
        next,
    );
    lemma_marks_kept_within(
        orig,
        orig_delmap,
        before,
        before_delmap,
        at,
        next,
        later,
        next,
        u64::MAX,
    );
    lemma_marks_kept_within(
        before,
        before_delmap,
        after,
        after_delmap,
        later,
        to,
        later,
        next,
        u64::MAX,
    );
    lemma_marks_kept_twice(
        orig,
        orig_delmap,
        before,
        before_delmap,
        after,
        after_delmap,
        later,
        next,
    );
    assert forall|i: int| 0 <= i < k + 1 implies after.value_at(
        after_values,
        #[trigger] slot_of(next, i),
    ) == orig.value_at(orig_values, slot_of(first, i)) && after.is_live(
        after_delmap,
        slot_of(next, i),
    ) by {
        if i < k {
            lemma_slot_between(slot_of(next, i), later, to);
            assert(before.value_at(before_values, slot_of(next, i)) == orig.value_at(
                orig_values,
                slot_of(first, i),
            ));
            assert(after.value_at(after_values, slot_of(next, i)) == before.value_at(
                before_values,
                slot_of(next, i),
            ));
            assert(after.is_live(after_delmap, slot_of(next, i)) == before.is_live(
                before_delmap,
                slot_of(next, i),
            ));
        }
    }
}

/// Moving the start of the log past one more deleted slot.
#[verifier::spinoff_prover]
pub proof fn lemma_moved_dead_step(
    orig: Image,
    orig_values: Map<u64, u64>,
    orig_delmap: Map<u64, u64>,
    before: Image,
    before_values: Map<u64, u64>,
    before_delmap: Map<u64, u64>,
    after: Image,
    after_values: Map<u64, u64>,
    after_delmap: Map<u64, u64>,
    k: int,
)
    requires
        0 <= k,
        orig.first_logical() % VALUE_SIZE == 0,
        orig.next_logical() % VALUE_SIZE == 0,
        orig.first_logical() + 128 * k < orig.next_logical(),
        moved_dead(orig, orig_values, orig_delmap, before, before_values, before_delmap, k),
        !orig.is_live(orig_delmap, slot_of(orig.first_logical(), k)),
        one_moved(before, before_values, before_delmap, after, after_values, after_delmap),
    ensures
        moved_dead(orig, orig_values, orig_delmap, after, after_values, after_delmap, k + 1),
{
    let first = orig.first_logical();
    let next = orig.next_logical();
    let at = (first + 128 * k) as u64;
    let later = (first + 128 * (k + 1)) as u64;
    assert(slot_of(first, k) == at);
    lemma_slot_between(at, at, next);
    assert(before.is_live(before_delmap, at) == orig.is_live(orig_delmap, at));
    lemma_slots_kept_later(orig, orig_values, before, before_values, at, later, next);
    lemma_slots_kept_twice(
        orig,
        orig_values,
        before,
        before_values,
        after,
        after_values,
        later,
        next,
    );
    lemma_marks_kept_within(
        orig,
        orig_delmap,
        before,
        before_delmap,
        at,
        next,
        later,
        next,
        u64::MAX,
    );
    lemma_marks_kept_twice(
        orig,
        orig_delmap,
        before,
        before_delmap,
        after,
        after_delmap,
        later,
        next,
    );
}

/// A move under way is not disturbed by changes that keep the ends of the log, its
/// slots and its marks.
#[verifier::spinoff_prover]
pub proof fn lemma_moved_kept(
    orig: Image,
    orig_values: Map<u64, u64>,
    orig_delmap: Map<u64, u64>,
    before: Image,
    values: Map<u64, u64>,
    delmap: Map<u64, u64>,
    after: Image,
    k: int,
)
    requires
        0 <= k,
        orig.first_logical() % VALUE_SIZE == 0,
        orig.next_logical() % VALUE_SIZE == 0,
        orig.first_logical() + 128 * k <= orig.next_logical(),
        orig.next_logical() + 128 * k <= u64::MAX,
        after.first_logical() == before.first_logical(),
        after.next_logical() == before.next_logical(),
        slots_kept(before, values, after, values, before.first_logical(), before.next_logical()),
        marks_kept(before, delmap, after, delmap, before.first_logical(), before.next_logical()),
    ensures
        moved_live(orig, orig_values, orig_delmap, before, values, delmap, k) ==> moved_live(
            orig,
            orig_values,
            orig_delmap,
            after,
            values,
            delmap,
            k,
        ),
        moved_dead(orig, orig_values, orig_delmap, before, values, delmap, k) ==> moved_dead(
            orig,
            orig_values,
            orig_delmap,
            after,
            values,
            delmap,
            k,
        ),
{
    let first = orig.first_logical();
    let next = orig.next_logical();
    let at = (first + 128 * k) as u64;
    if moved_live(orig, orig_values, orig_delmap, before, values, delmap, k) {
        lemma_slots_kept_shorter(before, values, after, values, at, before.next_logical(), next);
        lemma_slots_kept_twice(orig, orig_values, before, values, after, values, at, next);
        lemma_marks_kept_within(
            before,
            delmap,
            after,
            delmap,
            at,
            before.next_logical(),
            at,
            next,
            u64::MAX,
        );
        lemma_marks_kept_twice(orig, orig_delmap, before, delmap, after, delmap, at, next);
        assert forall|i: int| 0 <= i < k implies after.value_at(
            values,
            #[trigger] slot_of(next, i),
        ) == orig.value_at(orig_values, slot_of(first, i)) && after.is_live(
            delmap,
            slot_of(next, i),
        ) by {
            lemma_slot_between(slot_of(next, i), at, before.next_logical());
            assert(before.value_at(values, slot_of(next, i)) == orig.value_at(
                orig_values,
                slot_of(first, i),
            ));
        }
    }
    if moved_dead(orig, orig_values, orig_delmap, before, values, delmap, k) {
        lemma_slots_kept_twice(orig, orig_values, before, values, after, values, at, next);
        lemma_marks_kept_twice(orig, orig_delmap, before, delmap, after, delmap, at, next);
    }
}

} // verus!
