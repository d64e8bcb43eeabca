use vstd::prelude::*;
use crate::engine::INITIAL_SIZE;
use crate::flushing::flushed;
use crate::image::Image;
use crate::restore::restored;
use crate::table::HashTable;
use crate::transaction::Changes;
use crate::transaction::covers;
use crate::transaction::flushable;
use crate::transaction::overlay;
use crate::wal::lemma_wal_roundtrip;
use crate::wal::wal_image;

verus! {

/// Whether `crashed` may be what a crash in the middle of a flush leaves of the file
/// `disk`: a file of the same length that differs from it only where a pending write
/// reaches.
pub open spec fn crashed_from(disk: Seq<u8>, changes: Changes, crashed: Seq<u8>) -> bool {
    &&& crashed.len() == disk.len()
    &&& forall|p: int|
        0 <= p < disk.len() && !(exists|k: u64| covers(changes, k, p)) ==> #[trigger] crashed[p]
            == disk[p]
}

/// Applying the pending writes heals what a crash in the middle of a flush left: the
/// file becomes what the flush would have made of it.
pub proof fn lemma_overlay_heals(disk: Seq<u8>, changes: Changes, crashed: Seq<u8>)
    requires
        crashed_from(disk, changes, crashed),
    ensures
        overlay(crashed, changes) == overlay(disk, changes),
{
    assert(overlay(crashed, changes) =~= overlay(disk, changes));
}

/// Opening the file that a crash in the middle of a flush left, with the
/// write-ahead log that was written before the flush, gives the image that the
/// flush would have left.
pub proof fn lemma_crash_recovery(disk: Seq<u8>, changes: Changes, crashed: Seq<u8>)
    requires
        disk.len() >= INITIAL_SIZE,
        changes.dom().finite(),
        changes.dom().len() <= u64::MAX,
        forall|k: u64| changes.contains_key(k) ==> changes[k].len() <= u64::MAX,
        flushable(changes, disk),
        crashed_from(disk, changes, crashed),
    ensures
        restored(crashed, Some(wal_image(changes))) == flushed(Image { changes, disk }),
{
    lemma_wal_roundtrip(changes);
    lemma_overlay_heals(disk, changes, crashed);
    assert(flushable(changes, crashed));
}

/// Whether two images give the same answers under the directories of an engine:
/// the same ends of the log, the same value of the index for every hash, and the
/// same stored value for every hash.
pub open spec fn same_answers(
    before: Image,
    after: Image,
    ht: Seq<([u8; 26], u64)>,
    values: Map<u64, u64>,
) -> bool {
    &&& after.first_logical() == before.first_logical()
    &&& after.next_logical() == before.next_logical()
    &&& forall|hash: Seq<u8>| #[trigger] after.lookup(ht, hash) == before.lookup(ht, hash)
    &&& forall|hash: Seq<u8>|
        #[trigger] after.fetch(ht, values, hash) == before.fetch(ht, values, hash)
}

/// After a crash in the middle of a flush, the file opened with the write-ahead log
/// that the engine wrote before the flush gives the answers that the engine gave
/// before the crash.
pub proof fn lemma_recovered_answers(table: HashTable, crashed: Seq<u8>)
    requires
        table.wf(),
        crashed_from(table.image().disk, table.image().changes, crashed),
    ensures
        restored(crashed, Some(wal_image(table.image().changes))) == flushed(table.image()),
        same_answers(
            table.image(),
            restored(crashed, Some(wal_image(table.image().changes))),
            table.memory().ht,
            table.memory().values,
        ),
{
    let image = table.image();
    let ht = table.ht_mapping@;
    let values = table.values_mapping@;
    let delmap = table.delmap_mapping@;
    crate::upkeep::lemma_steady_cells(image, table.free_list(), ht, values, delmap);
    crate::shape::lemma_conforming_flushable(image);
    lemma_flushed_answers(table);
    table.tx.lemma_changes_counted();
    assert(image.disk.len() >= INITIAL_SIZE);
    assert forall|k: u64| image.changes.contains_key(k) implies image.changes[k].len()
        <= u64::MAX by {
        assert(crate::layout::within_page(k, image.changes[k].len()));
    }
    lemma_crash_recovery(image.disk, image.changes, crashed);
    assert(Image { changes: image.changes, disk: image.disk } == image);
}

/// A flush leaves the answers of the engine as they are.
pub proof fn lemma_flushed_answers(table: HashTable)
    requires
        table.wf(),
    ensures
        same_answers(
            table.image(),
            flushed(table.image()),
            table.memory().ht,
            table.memory().values,
        ),
{
    let image = table.image();
    let after = flushed(image);
    let ht = table.ht_mapping@;
    let values = table.values_mapping@;
    let delmap = table.delmap_mapping@;
    let chain = table.free_list();
    crate::upkeep::lemma_steady_cells(image, chain, ht, values, delmap);
    crate::flushing::lemma_flushed_steady(image, chain, ht, values, delmap);
    crate::flushing::lemma_flushed_index(image, chain, ht, values, delmap);
    crate::flushing::lemma_flushed_log(image, chain, ht, values, delmap);
    crate::indexlaws::lemma_kept_sound(image, after, ht);
    crate::logview::lemma_kept_log(
        image,
        after,
        values,
        delmap,
        image.first_logical(),
        image.next_logical(),
        image.next_value_physical(),
        image.next_delmap_physical(),
    );
    assert forall|hash: Seq<u8>| #[trigger] after.fetch(ht, values, hash) == image.fetch(
        ht,
        values,
        hash,
    ) by {
        let held = image.lookup(ht, hash);
        if held != crate::layout::NO_VALUE {
            let offset = (held - 1) as u64;
            if image.first_logical() <= offset < image.next_logical() && offset % 128 == 0 {
                crate::logframe::lemma_slot_between(
                    offset,
                    image.first_logical(),
                    image.next_logical(),
                );
                assert(after.value_at(values, offset) == image.value_at(values, offset));
                if image.record_ok(values, offset) {
                    crate::records::lemma_fetch_kept(image, ht, values, after, ht, values, hash);
                }
            }
        }
    }
}

} // verus!
