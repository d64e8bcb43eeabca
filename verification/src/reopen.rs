use vstd::prelude::*;
use crate::accounting::listed;
use crate::hashorder::lemma_ascending_pairs;
use crate::hashorder::lemma_hash_lt_total;
use crate::image::Image;
use crate::indexshape::ascending;
use crate::layout::FIRST_SECTOR_OFFSET;
use crate::layout::HASH_LEN;
use crate::layout::PAGE_TYPE_HT;
use crate::split::has_key;
use crate::table::HashTable;

verus! {

/// Whether every key of the directory `a` is a key of the directory `b`.
pub open spec fn keys_within(a: Seq<([u8; 26], u64)>, b: Seq<([u8; 26], u64)>) -> bool {
    forall|i: int| 0 <= i < a.len() ==> has_key(b, (#[trigger] a[i]).0@)
}

/// Two directories in ascending order that hold the same keys hold them at the same
/// places, up to any place.
pub proof fn lemma_same_keys_at(a: Seq<([u8; 26], u64)>, b: Seq<([u8; 26], u64)>, n: int)
    requires
        ascending(a),
        ascending(b),
        keys_within(a, b),
        keys_within(b, a),
        0 <= n <= a.len(),
    ensures
        n <= b.len(),
        forall|i: int| 0 <= i < n ==> (#[trigger] a[i]).0@ == b[i].0@,
    decreases n,
{
    if n > 0 {
        lemma_same_keys_at(a, b, n - 1);
        let i = n - 1;
        // where the key a[i] stands in b
        assert(has_key(b, a[i].0@));
        let j = choose|j: int| 0 <= j < b.len() && (#[trigger] b[j]).0@ == a[i].0@;
        if j < i {
            assert(a[j].0@ == b[j].0@);
            lemma_ascending_pairs(a, j, i);
            lemma_hash_lt_total(a[j].0@, a[i].0@);
        }
        if j > i {
            assert(has_key(a, b[i].0@));
            let l = choose|l: int| 0 <= l < a.len() && (#[trigger] a[l]).0@ == b[i].0@;
            lemma_ascending_pairs(b, i, j);
            lemma_hash_lt_total(b[i].0@, b[j].0@);
            if l < i {
                assert(a[l].0@ == b[l].0@);
                lemma_ascending_pairs(b, l, i);
                lemma_hash_lt_total(b[l].0@, b[i].0@);
            } else if l > i {
                lemma_ascending_pairs(a, i, l);
                lemma_hash_lt_total(a[i].0@, a[l].0@);
            }
        }
        assert(j == i);
    }
}

/// Two directories in ascending order that hold the same keys are equally long and
/// hold the same key at every place.
pub proof fn lemma_same_keys(a: Seq<([u8; 26], u64)>, b: Seq<([u8; 26], u64)>)
    requires
        ascending(a),
        ascending(b),
        keys_within(a, b),
        keys_within(b, a),
    ensures
        a.len() == b.len(),
        forall|i: int| 0 <= i < a.len() ==> (#[trigger] a[i]).0@ == b[i].0@,
{
    lemma_same_keys_at(a, b, a.len() as int);
    lemma_same_keys_at(b, a, b.len() as int);
}

/// The directory of the index by which the directories account for the sectors of
/// the file is the only directory of the index of that file.
#[verifier::spinoff_prover]
pub proof fn lemma_directory_unique(
    image: Image,
    ht: Seq<([u8; 26], u64)>,
    values: Map<u64, u64>,
    delmap: Map<u64, u64>,
    other: Seq<([u8; 26], u64)>,
)
    requires
        image.index_ok(ht),
        image.accounted(ht, values, delmap),
        image.lists_index(other),
    ensures
        other == ht,
{
    reveal(Image::accounted_but);
    assert forall|i: int| 0 <= i < ht.len() implies has_key(other, (#[trigger] ht[i]).0@) by {
        assert(image.index_sector_ok(ht[i].0@, ht[i].1));
        assert(image.kind(ht[i].1) == PAGE_TYPE_HT);
    }
    assert forall|i: int| 0 <= i < other.len() implies has_key(ht, (#[trigger] other[i]).0@) by {
        assert(image.index_sector_ok(other[i].0@, other[i].1));
        let base = other[i].1;
        assert(image.has_sector(base));
        assert(image.sector_accounted(ht, values, delmap, base));
        assert(listed(ht, base));
        let j = choose|j: int| 0 <= j < ht.len() && (#[trigger] ht[j]).1 == base;
        assert(image.index_sector_ok(ht[j].0@, ht[j].1));
        assert(ht[j].0@ == other[i].0@);
    }
    lemma_same_keys(other, ht);
    assert forall|i: int| 0 <= i < ht.len() implies other[i] == ht[i] by {
        assert(other[i].0@ == ht[i].0@);
        assert(other[i].0 =~= ht[i].0);
        assert(image.index_sector_ok(other[i].0@, other[i].1));
        let base = other[i].1;
        assert(image.has_sector(base));
        assert(image.sector_accounted(ht, values, delmap, base));
        assert(listed(ht, base));
        let j = choose|j: int| 0 <= j < ht.len() && (#[trigger] ht[j]).1 == base;
        assert(image.index_sector_ok(ht[j].0@, ht[j].1));
        assert(ht[j].0@ == ht[i].0@);
        if j < i {
            lemma_ascending_pairs(ht, j, i);
            lemma_hash_lt_total(ht[j].0@, ht[i].0@);
        }
        if i < j {
            lemma_ascending_pairs(ht, i, j);
            lemma_hash_lt_total(ht[i].0@, ht[j].0@);
        }
    }
    assert(other =~= ht);
}

/// The directories by which an engine accounts for the sectors of its file are the
/// directories that the keys of the sectors give.
#[verifier::spinoff_prover]
pub proof fn lemma_directories_scanned(
    image: Image,
    ht: Seq<([u8; 26], u64)>,
    values: Map<u64, u64>,
    delmap: Map<u64, u64>,
)
    requires
        image.dirs_ok(values, delmap),
        image.accounted(ht, values, delmap),
    ensures
        image.values_directory() == values,
        image.delmap_directory() == delmap,
        forall|a: u64, b: u64, key: u64|
            #![trigger image.is_value_sector(a, key), image.is_value_sector(b, key)]
            image.is_value_sector(a, key) && image.is_value_sector(b, key) ==> a == b,
        forall|a: u64, b: u64, key: u64|
            #![trigger image.is_delmap_sector(a, key), image.is_delmap_sector(b, key)]
            image.is_delmap_sector(a, key) && image.is_delmap_sector(b, key) ==> a == b,
{
    reveal(Image::accounted_but);
    assert forall|a: u64, key: u64| #[trigger] image.is_value_sector(a, key) implies values.contains_key(
        key,
    ) && values[key] == a + 128 by {
        assert(image.has_sector(a));
        assert(image.sector_accounted(ht, values, delmap, a));
    }
    assert forall|a: u64, key: u64| #[trigger] image.is_delmap_sector(a, key) implies delmap.contains_key(
        key,
    ) && delmap[key] == a + 64 by {
        assert(image.has_sector(a));
        assert(image.sector_accounted(ht, values, delmap, a));
    }
    assert forall|key: u64| values.contains_key(key) implies image.values_directory().contains_key(
        key,
    ) by {
        assert(image.value_sector_ok(key, values[key]));
        assert(image.is_value_sector((values[key] - 128) as u64, key));
    }
    assert forall|key: u64|
        image.values_directory().contains_key(key) implies values.contains_key(key)
        && image.values_directory()[key] == values[key] by {
        let base = choose|base: u64| image.is_value_sector(base, key);
        assert(image.is_value_sector(base, key));
    }
    assert(image.values_directory() =~= values);
    assert forall|key: u64| delmap.contains_key(key) implies image.delmap_directory().contains_key(
        key,
    ) by {
        assert(image.delmap_sector_ok(key, delmap[key]));
        assert(image.is_delmap_sector((delmap[key] - 64) as u64, key));
    }
    assert forall|key: u64|
        image.delmap_directory().contains_key(key) implies delmap.contains_key(key)
        && image.delmap_directory()[key] == delmap[key] by {
        let base = choose|base: u64| image.is_delmap_sector(base, key);
        assert(image.is_delmap_sector(base, key));
    }
    assert(image.delmap_directory() =~= delmap);
}

/// Whether an engine with the given directories is sound on the image: what the
/// soundness of an engine says of its file and its directories.
pub open spec fn sound_on(
    image: Image,
    chain: Seq<u64>,
    ht: Seq<([u8; 26], u64)>,
    values: Map<u64, u64>,
    delmap: Map<u64, u64>,
) -> bool {
    &&& crate::upkeep::steady(image, chain, ht, values, delmap)
    &&& image.index_sound(ht)
    &&& image.accounted(ht, values, delmap)
    &&& image.cursors_ok()
    &&& crate::logshape::values_follow(
        image.first_logical(),
        image.next_logical(),
        image.next_value_physical(),
        values,
    )
    &&& crate::logshape::delmap_follows(
        image.first_logical(),
        image.next_logical(),
        image.next_delmap_physical(),
        delmap,
    )
}

/// An engine can be opened on a file on which an engine is sound and has no writes
/// pending, and the directories that it then gathers are those of that engine.
#[verifier::spinoff_prover]
pub proof fn lemma_image_restorable(
    image: Image,
    chain: Seq<u64>,
    ht: Seq<([u8; 26], u64)>,
    values: Map<u64, u64>,
    delmap: Map<u64, u64>,
)
    requires
        sound_on(image, chain, ht, values, delmap),
        image.changes == Map::<u64, Seq<u8>>::empty(),
    ensures
        image.restorable(),
        image.values_directory() == values,
        image.delmap_directory() == delmap,
        forall|other: Seq<([u8; 26], u64)>| #[trigger] image.lists_index(other) ==> other == ht,
{
    crate::upkeep::lemma_steady_parts(image, chain, ht, values, delmap);
    crate::upkeep::lemma_steady_dirs(image, chain, ht, values, delmap);
    lemma_directories_scanned(image, ht, values, delmap);
    assert forall|other: Seq<([u8; 26], u64)>| #[trigger] image.lists_index(other) implies other
        == ht && image.index_sound(other) by {
        lemma_directory_unique(image, ht, values, delmap, other);
    }
    lemma_sectors_known(image, ht, values, delmap);
    assert(image.free_chain(chain) && image.free_kinds_ok(chain));
}

/// A flush leaves an engine sound on its file.
#[verifier::spinoff_prover]
pub proof fn lemma_flushed_sound(
    image: Image,
    chain: Seq<u64>,
    ht: Seq<([u8; 26], u64)>,
    values: Map<u64, u64>,
    delmap: Map<u64, u64>,
)
    requires
        sound_on(image, chain, ht, values, delmap),
    ensures
        sound_on(crate::flushing::flushed(image), chain, ht, values, delmap),
{
    crate::upkeep::lemma_steady_cells(image, chain, ht, values, delmap);
    crate::flushing::lemma_flushed_steady(image, chain, ht, values, delmap);
    crate::flushing::lemma_flushed_index(image, chain, ht, values, delmap);
    crate::flushing::lemma_flushed_sectors(image, chain, ht, values, delmap);
    crate::indexlaws::lemma_kept_sound(image, crate::flushing::flushed(image), ht);
    crate::accounting::lemma_accounted_kept(
        image,
        crate::flushing::flushed(image),
        ht,
        values,
        delmap,
        0,
    );
}

impl HashTable {
    /// An engine can be opened on the file of an engine that has no writes pending,
    /// and the directories that it then gathers are those of that engine.
    pub proof fn lemma_reopens(&self)
        requires
            self.wf(),
            self.image().changes == Map::<u64, Seq<u8>>::empty(),
        ensures
            self.image().restorable(),
            self.image().values_directory() == self.memory().values,
            self.image().delmap_directory() == self.memory().delmap,
            forall|ht: Seq<([u8; 26], u64)>|
                #[trigger] self.image().lists_index(ht) ==> ht == self.memory().ht,
            crate::restore::restored(self.image().disk, None) == self.image(),
    {
        crate::upkeep::lemma_steady_cells(
            self.image(),
            self.free_list(),
            self.ht_mapping@,
            self.values_mapping@,
            self.delmap_mapping@,
        );
        lemma_image_restorable(
            self.image(),
            self.free_list(),
            self.ht_mapping@,
            self.values_mapping@,
            self.delmap_mapping@,
        );
    }

    /// An engine opened on the file of an engine that has no writes pending is
    /// linked if that engine is, and holds what that engine holds.
    pub proof fn lemma_reopened_holds(&self, reopened: &HashTable)
        requires
            self.wf(),
            self.image().changes == Map::<u64, Seq<u8>>::empty(),
            reopened.image() == self.image(),
            reopened.memory().values == reopened.image().values_directory(),
            reopened.memory().delmap == reopened.image().delmap_directory(),
            reopened.image().lists_index(reopened.memory().ht),
        ensures
            reopened.linked() == self.linked(),
            reopened.holds_as(self, None),
    {
        self.lemma_reopens();
        self.lemma_linked_same(reopened, None);
    }

    /// After a crash in the middle of a flush, an engine can be opened on the file
    /// with the write-ahead log that this engine wrote before the flush; the engine
    /// so opened is linked if this engine is, and holds what this engine holds.
    pub proof fn lemma_recovers(&self, crashed: Seq<u8>, reopened: &HashTable)
        requires
            self.wf(),
            crate::recovery::crashed_from(self.image().disk, self.image().changes, crashed),
            reopened.image() == crate::restore::restored(
                crashed,
                Some(crate::wal::wal_image(self.image().changes)),
            ),
            reopened.memory().values == reopened.image().values_directory(),
            reopened.memory().delmap == reopened.image().delmap_directory(),
            reopened.image().lists_index(reopened.memory().ht),
        ensures
            crate::restore::restored(
                crashed,
                Some(crate::wal::wal_image(self.image().changes)),
            ).restorable(),
            reopened.linked() == self.linked(),
            reopened.holds_as(self, None),
    {
        reveal(HashTable::stored);
        reveal(HashTable::linked_but);
        let image = self.image();
        let after = crate::flushing::flushed(image);
        let ht = self.ht_mapping@;
        let values = self.values_mapping@;
        let delmap = self.delmap_mapping@;
        crate::recovery::lemma_recovered_answers(*self, crashed);
        lemma_flushed_sound(image, self.free_list(), ht, values, delmap);
        lemma_image_restorable(after, self.free_list(), ht, values, delmap);
        self.lemma_flushed_linked();
        assert(reopened.memory().ht == ht);
        if self.linked() {
            let recs = choose|recs: Seq<u64>|
                #[trigger] after.linked_but(ht, values, delmap, recs, None);
            assert(reopened.image().linked_but(
                reopened.memory().ht,
                reopened.memory().values,
                reopened.memory().delmap,
                recs,
                None,
            ));
        }
        if reopened.linked() {
            let recs = choose|recs: Seq<u64>|
                #[trigger] after.linked_but(ht, values, delmap, recs, None);
            lemma_unflushed_linked(image, self.free_list(), ht, values, delmap, recs);
            assert(self.image().linked_but(
                self.memory().ht,
                self.memory().values,
                self.memory().delmap,
                recs,
                None,
            ));
        }
    }
}

/// An engine whose flushed file is linked is linked.
#[verifier::spinoff_prover]
pub proof fn lemma_unflushed_linked(
    image: Image,
    chain: Seq<u64>,
    ht: Seq<([u8; 26], u64)>,
    values: Map<u64, u64>,
    delmap: Map<u64, u64>,
    recs: Seq<u64>,
)
    requires
        sound_on(image, chain, ht, values, delmap),
        crate::flushing::flushed(image).linked_but(ht, values, delmap, recs, None),
    ensures
        image.linked_but(ht, values, delmap, recs, None),
{
    let after = crate::flushing::flushed(image);
    crate::upkeep::lemma_steady_cells(image, chain, ht, values, delmap);
    crate::flushing::lemma_flushed_steady(image, chain, ht, values, delmap);
    crate::flushing::lemma_flushed_index(image, chain, ht, values, delmap);
    crate::flushing::lemma_flushed_log(image, chain, ht, values, delmap);
    crate::indexlaws::lemma_kept_sound(image, after, ht);
    crate::logview::lemma_kept_log(
        image,
        after,
        values,
        delmap,
        image.first_logical(),
        image.next_logical(),
        image.next_value_physical(),
        image.next_delmap_physical(),
    );
    crate::logview::lemma_kept_back(image, after, values, delmap);
    crate::logview::lemma_kept_log(
        after,
        image,
        values,
        delmap,
        image.first_logical(),
        image.next_logical(),
        image.next_value_physical(),
        image.next_delmap_physical(),
    );
    crate::linked::lemma_linked_kept(
        after,
        ht,
        values,
        delmap,
        image,
        ht,
        values,
        delmap,
        recs,
        None,
    );
}

/// In an engine whose directories account for the sectors of the file, the first
/// sector is the first of the index, every sector has a known type, the sectors of
/// the index record the number of their entries in use, and no two of them have one
/// key.
#[verifier::spinoff_prover]
pub proof fn lemma_sectors_known(
    image: Image,
    ht: Seq<([u8; 26], u64)>,
    values: Map<u64, u64>,
    delmap: Map<u64, u64>,
)
    requires
        image.index_ok(ht),
        image.accounted(ht, values, delmap),
    ensures
        image.kind(FIRST_SECTOR_OFFSET) == PAGE_TYPE_HT,
        image.read(FIRST_SECTOR_OFFSET, HASH_LEN as nat) == crate::codec::zeros(HASH_LEN as nat),
        forall|base: u64|
            image.has_sector(base) ==> #[trigger] image.kind(base) <= 3 && (image.kind(base)
                == PAGE_TYPE_HT ==> image.occupancy(base) == image.occupied(
                base,
                crate::layout::SLOTS_IN_SECTOR as int,
            )),
        forall|a: u64, b: u64|
            #![trigger image.is_index_sector(a), image.is_index_sector(b)]
            image.is_index_sector(a) && image.is_index_sector(b) && image.read(a, HASH_LEN as nat)
                == image.read(b, HASH_LEN as nat) ==> a == b,
{
    reveal(Image::accounted_but);
    assert(image.index_sector_ok(ht[0].0@, ht[0].1));
    assert forall|base: u64| image.has_sector(base) implies #[trigger] image.kind(base) <= 3 && (
    image.kind(base) == PAGE_TYPE_HT ==> image.occupancy(base) == image.occupied(
        base,
        crate::layout::SLOTS_IN_SECTOR as int,
    )) by {
        assert(image.sector_accounted(ht, values, delmap, base));
        if image.kind(base) == PAGE_TYPE_HT {
            let j = choose|j: int| 0 <= j < ht.len() && (#[trigger] ht[j]).1 == base;
            assert(image.index_sector_ok(ht[j].0@, ht[j].1));
        }
    }
    assert forall|a: u64, b: u64|
        #![trigger image.is_index_sector(a), image.is_index_sector(b)]
        image.is_index_sector(a) && image.is_index_sector(b) && image.read(a, HASH_LEN as nat)
            == image.read(b, HASH_LEN as nat) implies a == b by {
        assert(image.has_sector(a) && image.has_sector(b));
        assert(image.sector_accounted(ht, values, delmap, a));
        assert(image.sector_accounted(ht, values, delmap, b));
        let i = choose|i: int| 0 <= i < ht.len() && (#[trigger] ht[i]).1 == a;
        let j = choose|j: int| 0 <= j < ht.len() && (#[trigger] ht[j]).1 == b;
        assert(image.index_sector_ok(ht[i].0@, ht[i].1));
        assert(image.index_sector_ok(ht[j].0@, ht[j].1));
        if i < j {
            lemma_ascending_pairs(ht, i, j);
            lemma_hash_lt_total(ht[i].0@, ht[j].0@);
        }
        if j < i {
            lemma_ascending_pairs(ht, j, i);
            lemma_hash_lt_total(ht[j].0@, ht[i].0@);
        }
    }
}

} // verus!
