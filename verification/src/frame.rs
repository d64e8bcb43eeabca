use vstd::prelude::*;
use crate::image::Image;

verus! {

/// Whether `after` reads like `before` at every offset outside `touched`, as far as
/// the reads stay within the file as `before` has it.
pub open spec fn agree_except(before: Image, after: Image, touched: Set<u64>) -> bool {
    &&& before.file_size() <= after.file_size()
    &&& forall|offset: u64, len: nat|
        !touched.contains(offset) && offset + len <= before.file_size() ==> #[trigger] after.read(
            offset,
            len,
        ) == before.read(offset, len)
    &&& forall|offset: u64| #![trigger after.changes.contains_key(offset)]
        !touched.contains(offset) ==> (after.changes.contains_key(offset)
            <==> before.changes.contains_key(offset))
}

/// An image agrees with itself.
pub proof fn lemma_agree_same(image: Image)
    ensures
        agree_except(image, image, Set::<u64>::empty()),
{
}

/// A write changes what is read at its offset, and nothing else.
pub proof fn lemma_agree_put(image: Image, offset: u64, data: Seq<u8>)
    requires
        offset != 0,
    ensures
        agree_except(image, image.put(offset, data), set![offset]),
{
}

/// Agreement carries to a larger set of offsets.
pub proof fn lemma_agree_widen(before: Image, after: Image, touched: Set<u64>, more: Set<u64>)
    requires
        agree_except(before, after, touched),
        touched.subset_of(more),
    ensures
        agree_except(before, after, more),
{
}

/// Agreement carries over two steps.
pub proof fn lemma_agree_chain(a: Image, b: Image, c: Image, first: Set<u64>, second: Set<u64>)
    requires
        agree_except(a, b, first),
        agree_except(b, c, second),
    ensures
        agree_except(a, c, first.union(second)),
{
    assert forall|offset: u64, len: nat|
        !first.union(second).contains(offset) && offset + len <= a.file_size() implies #[trigger] c.read(
        offset,
        len,
    ) == a.read(offset, len) by {
        assert(b.read(offset, len) == a.read(offset, len));
    }
}

/// A write after a change that was agreed on.
pub proof fn lemma_agree_then_put(
    before: Image,
    after: Image,
    touched: Set<u64>,
    offset: u64,
    data: Seq<u8>,
)
    requires
        agree_except(before, after, touched),
        offset != 0,
    ensures
        agree_except(before, after.put(offset, data), touched.insert(offset)),
{
    lemma_agree_put(after, offset, data);
    lemma_agree_chain(before, after, after.put(offset, data), touched, set![offset]);
    assert(touched.union(set![offset]) =~= touched.insert(offset));
}

} // verus!
