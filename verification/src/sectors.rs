use vstd::arithmetic::div_mod::lemma_mod_add_multiples_vanish;
use vstd::arithmetic::div_mod::lemma_small_mod;
use vstd::arithmetic::div_mod::lemma_sub_mod_noop;
use vstd::prelude::*;
use crate::codec::encode_num;
use crate::codec::lemma_num_roundtrip;
use crate::codec::zero_bytes;
use crate::codec::zeros;
use crate::frame::agree_except;
use crate::image::Image;
use crate::layout::FILE_SIZE_OFFSET;
use crate::layout::FREE_LIST_OFFSET;
use crate::layout::is_sector_base;
use crate::layout::PAGE_TYPE_FREE;
use crate::layout::SECTOR_NEXT_FREE_OFFSET;
use crate::layout::SECTOR_SIZE;
use crate::layout::SECTOR_TYPE_OFFSET;
use crate::table::HashTable;
use crate::transaction::Changes;

verus! {

/// Total length of the first `n` chunks.
pub open spec fn prefix_len(chunks: Seq<Vec<u8>>, n: int) -> int
    decreases n,
{
    if n <= 0 {
        0
    } else {
        prefix_len(chunks, n - 1) + chunks[n - 1]@.len()
    }
}

/// Whether a freshly allocated sector holds a write at `rel` bytes from its start: a
/// chunk of the prelude or an element of the fill starts there.
pub open spec fn is_written(chunks: Seq<Vec<u8>>, prelude_size: int, el_size: int, rel: int) -> bool {
    ||| exists|i: int| 0 <= i < chunks.len() && rel == #[trigger] prefix_len(chunks, i)
    ||| (prelude_size <= rel && (rel - prelude_size) % el_size == 0)
}

/// The total length of chunks grows with their number. As every chunk holds a byte, it
/// grows strictly.
pub proof fn lemma_prefix_len_grows(chunks: Seq<Vec<u8>>, a: int, b: int)
    requires
        0 <= a < b <= chunks.len(),
        forall|i: int| 0 <= i < chunks.len() ==> (#[trigger] chunks[i])@.len() > 0,
    ensures
        prefix_len(chunks, a) < prefix_len(chunks, b),
    decreases b - a,
{
    if a + 1 < b {
        lemma_prefix_len_grows(chunks, a, b - 1);
    }
}

/// Two multiples of `m`, counted from `origin`, that lie less than `m` apart are one.
pub proof fn lemma_same_multiple(origin: int, a: int, b: int, m: int)
    requires
        0 < m,
        (a - origin) % m == 0,
        (b - origin) % m == 0,
        a <= b < a + m,
    ensures
        a == b,
{
    lemma_sub_mod_noop(b - origin, a - origin, m);
    assert((b - origin) - (a - origin) == b - a);
    lemma_small_mod(0, m as nat);
    lemma_small_mod((b - a) as nat, m as nat);
}

/// Whether two sets of pending writes agree outside the offsets from `lo` up to `hi`.
pub open spec fn agree_outside(a: Changes, b: Changes, lo: int, hi: int) -> bool {
    forall|k: u64|
        #![trigger a.contains_key(k)]
        #![trigger b.contains_key(k)]
        !(lo <= k < hi) ==> (a.contains_key(k) <==> b.contains_key(k)) && (a.contains_key(k)
            ==> a[k] == b[k])
}

/// Whether `changes` holds a write of `len` zero bytes at `k`.
pub open spec fn holds_zeros(changes: Changes, k: u64, len: nat) -> bool {
    changes.contains_key(k) && changes[k] == zeros(len)
}

/// How an allocation changes the image. `reused` tells whether the sector at `ret`
/// came from the free list; otherwise the file grew by it. The sector holds the
/// chunks of the prelude and the zeroed elements after it, and no other pending
/// write; beyond the sector only the header fields for the file size and the free
/// list may have changed.
pub open spec fn allocation(
    before: Image,
    after: Image,
    reused: bool,
    ret: u64,
    chunks: Seq<Vec<u8>>,
    prelude_size: int,
    el_size: int,
) -> bool {
    &&& after.has_sector(ret)
    &&& reused ==> {
        &&& after.file_size() == before.file_size()
        &&& after.disk == before.disk
    }
    &&& !reused ==> {
        &&& after.file_size() == before.file_size() + SECTOR_SIZE
        &&& after.disk == before.disk.subrange(0, before.file_size() as int) + zeros(
            SECTOR_SIZE as nat,
        )
    }
    &&& forall|i: int|
        0 <= i < chunks.len() ==> {
            &&& after.changes.contains_key((ret + #[trigger] prefix_len(chunks, i)) as u64)
            &&& after.changes[(ret + prefix_len(chunks, i)) as u64] == chunks[i]@
        }
    &&& forall|k: u64|
        ret + prelude_size <= k < ret + SECTOR_SIZE && (k - ret - prelude_size) % el_size == 0
            ==> #[trigger] holds_zeros(after.changes, k, el_size as nat)
    &&& forall|k: u64|
        ret <= k < ret + SECTOR_SIZE && #[trigger] after.changes.contains_key(k) ==> is_written(
            chunks,
            prelude_size,
            el_size,
            k - ret,
        )
    &&& forall|k: u64|
        !(ret <= k < ret + SECTOR_SIZE) && k != FILE_SIZE_OFFSET && k != FREE_LIST_OFFSET ==> {
            &&& #[trigger] after.changes.contains_key(k) <==> before.changes.contains_key(k)
            &&& after.changes.contains_key(k) ==> after.changes[k] == before.changes[k]
        }
}

/// The offsets that an allocation of the sector at `ret` may change: the header fields
/// for the file size and the free list, and the sector.
pub open spec fn allocation_touches(ret: u64) -> Set<u64> {
    Set::new(
        |offset: u64|
            offset == FILE_SIZE_OFFSET || offset == FREE_LIST_OFFSET || ret <= offset < ret
                + SECTOR_SIZE,
    )
}

/// An allocation leaves what is read elsewhere as it was.
pub proof fn lemma_allocation_agrees(
    before: Image,
    after: Image,
    reused: bool,
    ret: u64,
    chunks: Seq<Vec<u8>>,
    prelude_size: int,
    el_size: int,
)
    requires
        allocation(before, after, reused, ret, chunks, prelude_size, el_size),
        before.file_size() <= before.disk.len(),
    ensures
        agree_except(before, after, allocation_touches(ret)),
{
    let touched = allocation_touches(ret);
    assert forall|offset: u64, len: nat|
        !touched.contains(offset) && offset + len <= before.file_size() implies #[trigger] after.read(
        offset,
        len,
    ) == before.read(offset, len) by {
        assert(after.changes.contains_key(offset) <==> before.changes.contains_key(offset));
        if !after.changes.contains_key(offset) {
            assert(after.disk.subrange(offset as int, offset + len) =~= before.disk.subrange(
                offset as int,
                offset + len,
            ));
        }
    }
}

/// The sector that an allocation hands out: the head of the free list, or the end of
/// the file where the list is empty.
pub open spec fn allocated_sector(free_list: Seq<u64>, file_size: u64) -> u64 {
    if free_list.len() > 0 {
        free_list[0]
    } else {
        file_size
    }
}

/// The size of the file after an allocation: a sector more where the free list was
/// empty.
pub open spec fn file_size_after_allocate(free_list: Seq<u64>, file_size: u64) -> int {
    if free_list.len() > 0 {
        file_size as int
    } else {
        file_size + SECTOR_SIZE
    }
}

/// The free list after an allocation.
pub open spec fn free_list_after_allocate(free_list: Seq<u64>) -> Seq<u64> {
    if free_list.len() > 0 {
        free_list.drop_first()
    } else {
        free_list
    }
}

/// The free list after the sector at `base` was freed.
pub open spec fn free_list_after_free(free_list: Seq<u64>, base: u64) -> Seq<u64> {
    seq![base] + free_list
}

/// The free list is a stack: of two sectors freed one after the other, the next
/// allocation hands out the second, the one after it the first, and the list is then
/// as it was before.
pub proof fn lemma_free_list_lifo(free_list: Seq<u64>, file_size: u64, a: u64, b: u64)
    ensures
        ({
            let pushed = free_list_after_free(free_list_after_free(free_list, a), b);
            let once = free_list_after_allocate(pushed);
            let twice = free_list_after_allocate(once);
            &&& allocated_sector(pushed, file_size) == b
            &&& allocated_sector(once, file_size) == a
            &&& twice == free_list
        }),
{
    let pushed = free_list_after_free(free_list_after_free(free_list, a), b);
    let once = free_list_after_allocate(pushed);
    assert(once =~= free_list_after_free(free_list, a));
    assert(free_list_after_allocate(once) =~= free_list);
}

/// With an empty free list an allocation appends a sector to the file.
pub proof fn lemma_allocate_appends(file_size: u64)
    ensures
        allocated_sector(Seq::<u64>::empty(), file_size) == file_size,
        free_list_after_allocate(Seq::<u64>::empty()) == Seq::<u64>::empty(),
{
}

impl HashTable {
    /// Hands out a sector: the head of the free list, or a new sector at the end of
    /// the file where the list is empty. Pending writes to the sector are dropped;
    /// then the chunks of `prelude` are written one after the other from its start,
    /// and the rest of the sector is filled with zeroed elements of `el_size` bytes.
    #[verifier::spinoff_prover]
    pub fn allocate_sector(
        &mut self,
        prelude: Vec<Vec<u8>>,
        expected_prelude_size: u64,
        el_size: u64,
    ) -> (ret: u64)
        requires
            old(self).store_wf(),
            prefix_len(prelude@, prelude@.len() as int) == expected_prelude_size,
            forall|i: int| 0 <= i < prelude@.len() ==> (#[trigger] prelude@[i])@.len() > 0,
            expected_prelude_size <= SECTOR_SIZE,
            el_size > 0,
            (SECTOR_SIZE - expected_prelude_size) % (el_size as int) == 0,
        ensures
            final(self).store_wf(),
            ret == allocated_sector(old(self).free_list(), old(self).image().file_size()),
            final(self).free_list() == free_list_after_allocate(old(self).free_list()),
            allocation(
                old(self).image(),
                final(self).image(),
                old(self).free_list().len() > 0,
                ret,
                prelude@,
                expected_prelude_size as int,
                el_size as int,
            ),
            final(self).memory() == old(self).memory(),
    {
        let ghost before = self.image();
        let ghost chain = self.free_list();
        let file_size = self.tx.get_num(&mut self.disk, FILE_SIZE_OFFSET);
        let cur_free_offset = self.tx.get_num(&mut self.disk, FREE_LIST_OFFSET);
        let ret = if cur_free_offset != 0 {
            proof {
                assert(before.has_sector(chain[0]));
            }
            let new_free_offset = self.tx.get_num(
                &mut self.disk,
                cur_free_offset + SECTOR_NEXT_FREE_OFFSET,
            );
            self.tx.set(FREE_LIST_OFFSET, encode_num(new_free_offset));
            self.free_chain = Ghost(chain.drop_first());
            proof {
                lemma_num_roundtrip(new_free_offset);
                assert(new_free_offset == before.next_free(chain[0]));
                assert(self.image().free_head() == new_free_offset);
                if chain.len() > 1 {
                    assert(chain.drop_first()[0] == chain[1]);
                }
            }
            cur_free_offset
        } else {
            let total = self.disk.len();
            self.tx.drop_page();
            self.disk.truncate(file_size as usize);
            let fill = zero_bytes(SECTOR_SIZE as usize);
            self.disk.extend_from_slice(fill.as_slice());
            proof {
                assert(self.disk@ =~= before.disk.subrange(0, file_size as int) + zeros(
                    SECTOR_SIZE as nat,
                ));
            }
            let grown = self.disk.len();
            self.tx.set(FILE_SIZE_OFFSET, encode_num(file_size + SECTOR_SIZE));
            proof {
                lemma_num_roundtrip((file_size + SECTOR_SIZE) as u64);
                assert(chain.len() == 0);
                assert(self.disk@.subrange(8, 16) =~= before.disk.subrange(8, 16));
                assert(self.image().free_head() == before.free_head());
            }
            file_size
        };
        assert(ret == allocated_sector(chain, before.file_size()));
        assert(is_sector_base(ret));
        let ghost header = self.image();
        assert(header.free_head() == if self.free_list().len() > 0 {
            self.free_list()[0]
        } else {
            0
        });
        self.tx.reset_sector(ret);
        let ghost cleared = self.image();
        let ghost rest = self.free_list();
        proof {
            assert(cleared.file_size() == header.file_size());
            assert(cleared.free_head() == header.free_head());
            assert(cleared.has_sector(ret));
            assert forall|i: int| 0 <= i < rest.len() implies ret != #[trigger] rest[i] by {
                if chain.len() > 0 {
                    assert(rest[i] == chain[i + 1]);
                }
            }
        }
        let end = ret + SECTOR_SIZE;
        let mut offset = ret;
        let mut i: usize = 0;
        while i < prelude.len()
            invariant
                0 <= i <= prelude@.len(),
                end == ret + SECTOR_SIZE,
                is_sector_base(ret),
                offset == ret + prefix_len(prelude@, i as int),
                prefix_len(prelude@, prelude@.len() as int) == expected_prelude_size,
                expected_prelude_size <= SECTOR_SIZE,
                forall|j: int| 0 <= j < prelude@.len() ==> (#[trigger] prelude@[j])@.len() > 0,
                self.disk@ == cleared.disk,
                self.tx.coherent(self.disk@),
                self.free_list() == rest,
                self.memory() == old(self).memory(),
                forall|j: int|
                    0 <= j < i ==> {
                        &&& self.image().changes.contains_key(
                            (ret + #[trigger] prefix_len(prelude@, j)) as u64,
                        )
                        &&& self.image().changes[(ret + prefix_len(prelude@, j)) as u64]
                            == prelude@[j]@
                    },
                forall|k: u64|
                    ret <= k < ret + SECTOR_SIZE && #[trigger] self.image().changes.contains_key(k)
                        ==> exists|j: int| 0 <= j < i && k - ret == #[trigger] prefix_len(prelude@, j),
                agree_outside(self.image().changes, cleared.changes, ret as int, ret + SECTOR_SIZE),
            decreases prelude@.len() - i,
        {
            let chunk = prelude[i].clone();
            let chunk_len = chunk.len() as u64;
            proof {
                assert(chunk@ == prelude@[i as int]@);
                lemma_prefix_len_grows(prelude@, i as int, prelude@.len() as int);
                if i > 0 {
                    lemma_prefix_len_grows(prelude@, 0, i as int);
                }
                if i + 1 < prelude@.len() {
                    lemma_prefix_len_grows(prelude@, i + 1, prelude@.len() as int);
                }
                assert(prefix_len(prelude@, i + 1) == prefix_len(prelude@, i as int) + chunk@.len());
                if self.image().changes.contains_key(offset) {
                    let j = choose|j: int|
                        0 <= j < i && offset - ret == #[trigger] prefix_len(prelude@, j);
                    lemma_prefix_len_grows(prelude@, j, i as int);
                }
                assert(!self.tx.changes().contains_key(offset));
            }
            let ghost prev = self.image();
            let ghost at = offset;
            let ghost i0 = i as int;
            self.tx.set(offset, chunk);
            proof {
                assert forall|k: u64|
                    ret <= k < ret + SECTOR_SIZE && #[trigger] self.image().changes.contains_key(
                        k,
                    ) implies exists|j: int|
                    0 <= j < i0 + 1 && k - ret == #[trigger] prefix_len(prelude@, j) by {
                    if k == at {
                        assert(0 <= i0 < i0 + 1 && k - ret == prefix_len(prelude@, i0));
                    } else {
                        assert(prev.changes.contains_key(k));
                        let j = choose|j: int|
                            0 <= j < i0 && k - ret == #[trigger] prefix_len(prelude@, j);
                        assert(0 <= j < i0 + 1 && k - ret == prefix_len(prelude@, j));
                    }
                }
                assert forall|j: int| 0 <= j < i0 + 1 implies {
                    &&& self.image().changes.contains_key(
                        (ret + #[trigger] prefix_len(prelude@, j)) as u64,
                    )
                    &&& self.image().changes[(ret + prefix_len(prelude@, j)) as u64]
                        == prelude@[j]@
                } by {
                    if j < i0 {
                        lemma_prefix_len_grows(prelude@, j, i0);
                        assert(prev.changes.contains_key((ret + prefix_len(prelude@, j)) as u64));
                    }
                }
            }
            offset += chunk_len;
            i += 1;
        }
        assert(offset - ret == expected_prelude_size);
        proof {
            lemma_small_mod(0, el_size as nat);
            assert forall|k: u64|
                ret <= k < ret + SECTOR_SIZE && #[trigger] self.image().changes.contains_key(
                    k,
                ) implies k < offset && is_written(
                prelude@,
                expected_prelude_size as int,
                el_size as int,
                k - ret,
            ) by {
                let j = choose|j: int|
                    0 <= j < prelude@.len() && k - ret == #[trigger] prefix_len(prelude@, j);
                lemma_prefix_len_grows(prelude@, j, prelude@.len() as int);
            }
        }
        while offset < end
            invariant
                end == ret + SECTOR_SIZE,
                is_sector_base(ret),
                ret + expected_prelude_size <= offset <= end,
                el_size > 0,
                (offset - ret - expected_prelude_size) % (el_size as int) == 0,
                (SECTOR_SIZE - expected_prelude_size) % (el_size as int) == 0,
                prefix_len(prelude@, prelude@.len() as int) == expected_prelude_size,
                forall|j: int| 0 <= j < prelude@.len() ==> (#[trigger] prelude@[j])@.len() > 0,
                self.disk@ == cleared.disk,
                self.tx.coherent(self.disk@),
                self.free_list() == rest,
                self.memory() == old(self).memory(),
                forall|j: int|
                    0 <= j < prelude@.len() ==> {
                        &&& self.image().changes.contains_key(
                            (ret + #[trigger] prefix_len(prelude@, j)) as u64,
                        )
                        &&& self.image().changes[(ret + prefix_len(prelude@, j)) as u64]
                            == prelude@[j]@
                    },
                forall|k: u64|
                    ret + expected_prelude_size <= k < offset && (k - ret - expected_prelude_size)
                        % (el_size as int) == 0 ==> #[trigger] holds_zeros(
                        self.image().changes,
                        k,
                        el_size as nat,
                    ),
                forall|k: u64|
                    ret <= k < ret + SECTOR_SIZE && #[trigger] self.image().changes.contains_key(k)
                        ==> k < offset && is_written(
                        prelude@,
                        expected_prelude_size as int,
                        el_size as int,
                        k - ret,
                    ),
                agree_outside(self.image().changes, cleared.changes, ret as int, ret + SECTOR_SIZE),
            decreases end - offset,
        {
            proof {
                let room = end - offset;
                assert(room % (el_size as int) == 0) by {
                    lemma_sub_mod_noop(
                        SECTOR_SIZE - expected_prelude_size,
                        offset - ret - expected_prelude_size,
                        el_size as int,
                    );
                    assert(room == (SECTOR_SIZE - expected_prelude_size) - (offset - ret
                        - expected_prelude_size));
                    lemma_small_mod(0, el_size as nat);
                }
                if room < el_size {
                    lemma_small_mod(room as nat, el_size as nat);
                }
                assert(offset + el_size <= end);
                lemma_mod_add_multiples_vanish(
                    offset - ret - expected_prelude_size,
                    el_size as int,
                );
                assert((offset + el_size - ret - expected_prelude_size) == el_size + (offset - ret
                    - expected_prelude_size));
            }
            let ghost at = offset;
            let ghost prev = self.image();
            assert(!self.tx.changes().contains_key(offset)) by {
                if self.image().changes.contains_key(offset) {
                    assert(offset < offset);
                }
            }
            self.tx.set(offset, zero_bytes(el_size as usize));
            offset += el_size;
            proof {
                assert forall|k: u64|
                    ret + expected_prelude_size <= k < offset && (k - ret - expected_prelude_size)
                        % (el_size as int) == 0 implies #[trigger] holds_zeros(
                    self.image().changes,
                    k,
                    el_size as nat,
                ) by {
                    if k >= at {
                        assert((at - (ret + expected_prelude_size)) == at - ret
                            - expected_prelude_size);
                        assert((k - (ret + expected_prelude_size)) == k - ret
                            - expected_prelude_size);
                        lemma_same_multiple(
                            ret + expected_prelude_size,
                            at as int,
                            k as int,
                            el_size as int,
                        );
                    } else {
                        assert(holds_zeros(prev.changes, k, el_size as nat));
                    }
                }
                assert forall|j: int| 0 <= j < prelude@.len() implies {
                    &&& self.image().changes.contains_key(
                        (ret + #[trigger] prefix_len(prelude@, j)) as u64,
                    )
                    &&& self.image().changes[(ret + prefix_len(prelude@, j)) as u64]
                        == prelude@[j]@
                } by {
                    lemma_prefix_len_grows(prelude@, j, prelude@.len() as int);
                    assert(prev.changes.contains_key((ret + prefix_len(prelude@, j)) as u64));
                }
                assert forall|k: u64|
                    ret <= k < ret + SECTOR_SIZE && #[trigger] self.image().changes.contains_key(
                        k,
                    ) implies k < offset && is_written(
                    prelude@,
                    expected_prelude_size as int,
                    el_size as int,
                    k - ret,
                ) by {
                    if k != at {
                        assert(prev.changes.contains_key(k));
                    }
                }
            }
        }
        proof {
            let after = self.image();
            assert(after.changes.contains_key(FILE_SIZE_OFFSET) <==> cleared.changes.contains_key(
                FILE_SIZE_OFFSET,
            ));
            assert(after.changes.contains_key(FREE_LIST_OFFSET) <==> cleared.changes.contains_key(
                FREE_LIST_OFFSET,
            ));
            assert(after.file_size() == header.file_size());
            assert(after.free_head() == header.free_head());
            assert(after.sized());
            assert(self.tx.coherent(self.disk@));
            assert(after.free_head() == if rest.len() > 0 {
                rest[0]
            } else {
                0
            });
            assert(rest.no_duplicates());
            assert forall|i: int| 0 <= i < rest.len() implies {
                &&& after.has_sector(#[trigger] rest[i])
                &&& after.writable((rest[i] + SECTOR_TYPE_OFFSET) as u64, 8)
                &&& after.writable((rest[i] + SECTOR_NEXT_FREE_OFFSET) as u64, 8)
                &&& after.next_free(rest[i]) == if i + 1 < rest.len() {
                    rest[i + 1]
                } else {
                    0
                }
            } by {
                let s = rest[i];
                if chain.len() > 0 {
                    assert(s == chain[i + 1]);
                    assert(before.has_sector(chain[i + 1]));
                }
                lemma_sectors_apart(s, ret);
                assert(after.changes.contains_key((s + SECTOR_NEXT_FREE_OFFSET) as u64)
                    <==> cleared.changes.contains_key((s + SECTOR_NEXT_FREE_OFFSET) as u64));
                assert(after.changes.contains_key((s + SECTOR_TYPE_OFFSET) as u64)
                    <==> cleared.changes.contains_key((s + SECTOR_TYPE_OFFSET) as u64));
            }
        }
        ret
    }

    /// Puts the sector at `offset` on the free list: marks it free, lets it point to
    /// the head of the list, and makes it the new head.
    #[verifier::spinoff_prover]
    pub fn free_sector(&mut self, offset: u64)
        requires
            old(self).store_wf(),
            old(self).image().has_sector(offset),
            !old(self).free_list().contains(offset),
            old(self).image().writable((offset + SECTOR_TYPE_OFFSET) as u64, 8),
            old(self).image().writable((offset + SECTOR_NEXT_FREE_OFFSET) as u64, 8),
        ensures
            final(self).store_wf(),
            final(self).free_list() == free_list_after_free(old(self).free_list(), offset),
            final(self).image() == old(self).image().put_num(
                (offset + SECTOR_TYPE_OFFSET) as u64,
                PAGE_TYPE_FREE,
            ).put_num(
                (offset + SECTOR_NEXT_FREE_OFFSET) as u64,
                old(self).image().free_head(),
            ).put_num(FREE_LIST_OFFSET, offset),
            final(self).memory() == old(self).memory(),
    {
        let ghost before = self.image();
        let ghost chain = self.free_list();
        self.tx.set(offset + SECTOR_TYPE_OFFSET, encode_num(PAGE_TYPE_FREE));
        let cur_free_offset = self.tx.get_num(&mut self.disk, FREE_LIST_OFFSET);
        self.tx.set(offset + SECTOR_NEXT_FREE_OFFSET, encode_num(cur_free_offset));
        self.tx.set(FREE_LIST_OFFSET, encode_num(offset));
        self.free_chain = Ghost(free_list_after_free(chain, offset));
        proof {
            let after = self.image();
            let grown = self.free_list();
            lemma_num_roundtrip(offset);
            lemma_num_roundtrip(cur_free_offset);
            lemma_num_roundtrip(PAGE_TYPE_FREE);
            assert(after.file_size() == before.file_size());
            assert forall|i: int| 0 <= i < grown.len() implies {
                &&& after.has_sector(#[trigger] grown[i])
                &&& after.writable((grown[i] + SECTOR_TYPE_OFFSET) as u64, 8)
                &&& after.writable((grown[i] + SECTOR_NEXT_FREE_OFFSET) as u64, 8)
                &&& after.next_free(grown[i]) == if i + 1 < grown.len() {
                    grown[i + 1]
                } else {
                    0
                }
            } by {
                if i > 0 {
                    let s = chain[i - 1];
                    assert(grown[i] == s);
                    assert(before.has_sector(s));
                    assert(s != offset);
                    lemma_sectors_apart(s, offset);
                }
            }
            assert(grown.no_duplicates());
        }
    }
}

/// Two different sectors lie a whole sector apart.
pub proof fn lemma_sectors_apart(a: u64, b: u64)
    requires
        is_sector_base(a),
        is_sector_base(b),
        a != b,
    ensures
        a + SECTOR_SIZE <= b || b + SECTOR_SIZE <= a,
{
}

/// Whether none of the offsets in `touched` is a header field of the allocator, or
/// the type or the pointer of a sector on the free list.
pub open spec fn spares_store(touched: Set<u64>, chain: Seq<u64>) -> bool {
    &&& !touched.contains(FILE_SIZE_OFFSET)
    &&& !touched.contains(FREE_LIST_OFFSET)
    &&& forall|i: int|
        0 <= i < chain.len() ==> !touched.contains((#[trigger] chain[i] + SECTOR_TYPE_OFFSET) as u64)
            && !touched.contains((chain[i] + SECTOR_NEXT_FREE_OFFSET) as u64)
}

/// The allocator's view of the file survives changes that spare its fields.
pub proof fn lemma_store_frame(before: Image, after: Image, touched: Set<u64>, chain: Seq<u64>)
    requires
        before.sized(),
        before.free_chain(chain),
        agree_except(before, after, touched),
        spares_store(touched, chain),
        after.disk.len() >= before.disk.len(),
    ensures
        after.sized(),
        after.free_chain(chain),
        after.file_size() == before.file_size(),
{
    assert(after.read(FILE_SIZE_OFFSET, 8) == before.read(FILE_SIZE_OFFSET, 8));
    assert(after.read(FREE_LIST_OFFSET, 8) == before.read(FREE_LIST_OFFSET, 8));
    assert(after.changes.contains_key(FILE_SIZE_OFFSET) <==> before.changes.contains_key(
        FILE_SIZE_OFFSET,
    ));
    assert(after.changes.contains_key(FREE_LIST_OFFSET) <==> before.changes.contains_key(
        FREE_LIST_OFFSET,
    ));
    assert forall|i: int| 0 <= i < chain.len() implies {
        &&& after.has_sector(#[trigger] chain[i])
        &&& after.writable((chain[i] + SECTOR_TYPE_OFFSET) as u64, 8)
        &&& after.writable((chain[i] + SECTOR_NEXT_FREE_OFFSET) as u64, 8)
        &&& after.next_free(chain[i]) == if i + 1 < chain.len() {
            chain[i + 1]
        } else {
            0
        }
    } by {
        let kind_at = (chain[i] + SECTOR_TYPE_OFFSET) as u64;
        let next_at = (chain[i] + SECTOR_NEXT_FREE_OFFSET) as u64;
        assert(before.has_sector(chain[i]));
        assert(after.read(kind_at, 8) == before.read(kind_at, 8));
        assert(after.read(next_at, 8) == before.read(next_at, 8));
        assert(after.changes.contains_key(kind_at) <==> before.changes.contains_key(kind_at));
        assert(after.changes.contains_key(next_at) <==> before.changes.contains_key(next_at));
    }
}

} // verus!
