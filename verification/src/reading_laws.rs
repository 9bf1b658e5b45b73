//! What is inserted is read back, in however many calls and in whatever order it comes.

use vstd::prelude::*;
use crate::batch::{
    all_insertable, batch_start, batch_step, batch_steps, ledger_sound, lemma_insertable_allowed,
    lemma_start_sound, source_of, Progress,
};
use crate::blockstore::BlockstoreView;
use crate::chaining::{chained_batch, effective_meta, inserted_into, ChainView};
use crate::column::{lemma_ordered_keys, orders, SlotIndex};
use crate::consistency::{
    consistent, ends_marked, faithful, known_in, lemma_batch_steps_kept, lemma_start_consistent,
    meta_agrees, progress_kept, stored_in,
};
use crate::insert::{all_faithful, batch_inserted, ledger_kept, ledger_result};
use crate::insertion::{
    data_shred_check, data_shred_present, data_step, has_data, index_entry, insertable, meta_entry,
    shred_key,
};
use crate::integrity::{
    batch_result, frame, lemma_chained_batch_frames, lemma_start_tracks, overlay, stored_shreds,
};
use crate::ledger::{LedgerView, WriteOpView};
use crate::meta::SlotMetaView;
use crate::metrics::BlockstoreInsertionMetrics;
use crate::records::{BlockstoreError, EntryView};
use crate::shred::ShredView;
use crate::slot_entries::{cleaned_up, dead, slot_entries};
use crate::slot_runs::{
    holds_runs, holds_some, law_slot_reads_back, lemma_run_lens, lemma_run_shreds_of_slot,
    run_entries, run_shreds, runs_of, shreds_of_slot, EntryRun,
};
use crate::slot_update::{elapsed_at_tick, valid_shred_slots};
use crate::types::Slot;

verus! {

/// A slot can take in more of its shreds, `all`: what it has are some of these; its parent is
/// theirs; its last index is that of the shred that ends the slot, once that is there; it is not
/// dead; and it builds on the last root or on what comes after it.
pub open spec fn can_take_in(
    store: BlockstoreView,
    slot: Slot,
    parent: Slot,
    all: Seq<ShredView>,
) -> bool {
    let meta = meta_entry(store.ledger, Map::empty(), slot, parent).new_slot_meta;
    &&& holds_some(store.ledger, slot, all)
    &&& meta.parent_slot == Some(parent)
    &&& forall|i: u64| #[trigger]
        stored_in(store.ledger, slot)(i) ==> store.ledger.meta[slot].parent_slot == Some(parent)
    &&& meta.last_index == if ends_in(all, stored_in(store.ledger, slot)) {
        Some((all.len() - 1) as u64)
    } else {
        None
    }
    &&& !dead(store.ledger, slot)
    &&& valid_shred_slots(slot, parent, store.last_root)
}

/// The shred that ends the slot is among those that there are.
pub open spec fn ends_in(all: Seq<ShredView>, present: spec_fn(u64) -> bool) -> bool {
    all.len() > 0 && all.last().last_in_slot() && present((all.len() - 1) as u64)
}

/// A batch of untrusted shreds, and what goes into its insertion.
pub struct Batch {
    pub shreds: Seq<ShredView>,
    pub is_repaired: Seq<bool>,
    pub now: u64,
    pub metrics: BlockstoreInsertionMetrics,
    pub has_completed_slots_senders: bool,
}

/// The store after a batch was inserted, as the insertion promises it.
pub open spec fn batch_made(store: BlockstoreView, batch: Batch, after: BlockstoreView) -> bool {
    &&& after == batch_inserted(
        store,
        batch.shreds,
        batch.is_repaired,
        false,
        batch.now,
        batch.metrics,
        None,
        batch.has_completed_slots_senders,
    ).0
    &&& ledger_kept(store.ledger, after.ledger, batch.shreds, false, None)
    &&& ledger_result(
        store,
        after.ledger,
        batch.shreds,
        batch.is_repaired,
        false,
        batch.now,
        batch.metrics,
        None,
    )
}

/// Every shred of a batch is one of `all`, and was made after the epoch.
pub open spec fn batch_among(batch: Batch, all: Seq<ShredView>) -> bool {
    forall|i: int|
        0 <= i < batch.shreds.len() ==> all.contains(#[trigger] batch.shreds[i]) && batch.now
            >= elapsed_at_tick(batch.shreds[i].reference_tick())
}

/// One of some shreds has the index `i`.
pub open spec fn has_index(shreds: Seq<ShredView>, i: u64) -> bool {
    exists|j: int| 0 <= j < shreds.len() && (#[trigger] shreds[j]).index() == i
}

/// Where an insertion stands after some of the shreds of a slot, `all`, were handed in: those
/// that are there, from before or from the batch, are these, and no slot was found to be dead.
spec fn taking_in(
    store: BlockstoreView,
    slot: Slot,
    parent: Slot,
    all: Seq<ShredView>,
    handed: Seq<ShredView>,
    p: Progress,
) -> bool {
    let known = known_in(p.store.ledger, p.state.data_shreds, slot);
    &&& p.store.ledger == store.ledger
    &&& p.store.last_root == store.last_root
    &&& p.store.lowest_cleanup_slot == store.lowest_cleanup_slot
    &&& forall|k: SlotIndex| #[trigger]
        p.state.data_shreds.contains_key(k) ==> k.slot == slot && k.index < all.len()
            && p.state.data_shreds[k] == all[k.index as int]
    &&& forall|i: u64| #[trigger]
        known(i) <==> stored_in(store.ledger, slot)(i) || has_index(handed, i)
    &&& forall|i: int|
        0 <= i < p.state.write_batch.len() ==> (
        #[trigger] p.state.write_batch[i]) is PutDataShred
    &&& forall|k: u64| #[trigger] p.state.slot_metas.contains_key(k) ==> k == slot
    &&& p.state.slot_metas.contains_key(slot) ==> {
        let meta = p.state.slot_metas[slot].new_slot_meta;
        &&& meta.parent_slot == Some(parent)
        &&& meta.last_index == if ends_in(all, known) {
            Some((all.len() - 1) as u64)
        } else {
            None
        }
    }
}

/// What is known of the slot agrees with the shreds that are there.
proof fn lemma_slot_known(
    store: BlockstoreView,
    slot: Slot,
    parent: Slot,
    all: Seq<ShredView>,
    handed: Seq<ShredView>,
    p: Progress,
    was_marked: bool,
    was_readable: bool,
)
    requires
        consistent(store.ledger),
        can_take_in(store, slot, parent, all),
        taking_in(store, slot, parent, all, handed, p),
        progress_kept(p, true, was_marked, was_readable),
    ensures
        ({
            let known = known_in(p.store.ledger, p.state.data_shreds, slot);
            let meta = meta_entry(
                p.store.ledger,
                p.state.slot_metas,
                slot,
                parent,
            ).new_slot_meta;
            let ie = index_entry(p.store.ledger, p.state.indexes, slot);
            &&& meta_agrees(meta, known)
            &&& meta.parent_slot == Some(parent)
            &&& meta.last_index == if ends_in(all, known) {
                Some((all.len() - 1) as u64)
            } else {
                None
            }
            &&& forall|j: u64| #[trigger] known(j) ==> j < all.len()
            &&& forall|j: u64| #[trigger] ie.index.data.contains(j) <==> known(j)
        }),
{
    let ledger = p.store.ledger;
    let known = known_in(ledger, p.state.data_shreds, slot);
    let stored = stored_in(ledger, slot);
    let meta = meta_entry(ledger, p.state.slot_metas, slot, parent).new_slot_meta;
    let ie = index_entry(ledger, p.state.indexes, slot);
    assert forall|j: u64| #[trigger] known(j) implies j < all.len() by {
        let k = SlotIndex { slot, index: j };
        if !p.state.data_shreds.contains_key(k) {
            assert(ledger.data_shreds.contains_key(k));
        }
    }
    assert forall|j: u64| #[trigger] ie.index.data.contains(j) <==> known(j) by {
        let k = SlotIndex { slot, index: j };
        if p.state.indexes.contains_key(slot) {
            assert(p.state.indexes[slot].index.data.contains(j) <==> has_data(
                ledger,
                p.state.data_shreds,
                slot,
                j,
            ));
        } else {
            if p.state.data_shreds.contains_key(k) {
                assert(p.state.indexes.contains_key(k.slot));
            }
            assert(ledger.data_shreds.contains_key(k) <==> ledger.index.contains_key(k.slot)
                && ledger.index[k.slot].data.contains(k.index));
        }
    }
    if !p.state.slot_metas.contains_key(slot) {
        assert forall|j: u64| #[trigger] known(j) <==> stored(j) by {
            if p.state.data_shreds.contains_key(SlotIndex { slot, index: j }) {
                assert(p.state.slot_metas.contains_key(slot));
            }
        }
        if ledger.meta.contains_key(slot) {
            let old_meta = ledger.meta[slot];
            assert(meta_agrees(old_meta, stored));
            assert(meta.last_index == old_meta.last_index && meta.received == old_meta.received
                && meta.consumed == old_meta.consumed && meta.completed_data_indexes
                == old_meta.completed_data_indexes);
            lemma_agrees_same(meta, old_meta, stored, known);
        } else {
            assert forall|j: u64| !#[trigger] known(j) by {
                if stored(j) {
                    assert(ledger.data_shreds.contains_key(SlotIndex { slot, index: j }));
                }
            }
        }
    }
}

/// Metadata agrees with whatever says the same of each index.
proof fn lemma_agrees_same(
    meta: SlotMetaView,
    other: SlotMetaView,
    a: spec_fn(u64) -> bool,
    b: spec_fn(u64) -> bool,
)
    requires
        meta_agrees(other, a),
        forall|j: u64| #[trigger] b(j) <==> a(j),
        meta.last_index == other.last_index,
        meta.received == other.received,
        meta.consumed == other.consumed,
        meta.completed_data_indexes == other.completed_data_indexes,
    ensures
        meta_agrees(meta, b),
{
    assert forall|i: u64| i < meta.consumed implies #[trigger] b(i) by {
        assert(a(i));
    }
    assert forall|i: u64| #[trigger] b(i) implies i < meta.received by {
        assert(a(i));
    }
    assert forall|i: u32| #[trigger] meta.completed_data_indexes.contains(i) implies b(i as u64) by {
        assert(a(i as u64));
    }
    assert(!b(meta.consumed));
    if meta.received > 0 {
        assert(b((meta.received - 1) as u64));
    }
    if meta.last_index is Some {
        assert(b(meta.last_index->0));
    }
}

/// A shred that is not there yet is accepted, and one that is there is found to be there.
proof fn lemma_accepted(
    store: BlockstoreView,
    slot: Slot,
    parent: Slot,
    all: Seq<ShredView>,
    handed: Seq<ShredView>,
    i: int,
    p: Progress,
    was_marked: bool,
    was_readable: bool,
)
    requires
        shreds_of_slot(slot, parent, all),
        consistent(store.ledger),
        can_take_in(store, slot, parent, all),
        taking_in(store, slot, parent, all, handed, p),
        progress_kept(p, true, was_marked, was_readable),
        0 <= i < all.len(),
    ensures
        ({
            let shred = all[i];
            let meta = meta_entry(
                p.store.ledger,
                p.state.slot_metas,
                slot,
                parent,
            ).new_slot_meta;
            let ie = index_entry(p.store.ledger, p.state.indexes, slot);
            if known_in(p.store.ledger, p.state.data_shreds, slot)(i as u64) {
                data_shred_present(shred, meta, ie.index.data)
            } else {
                &&& !data_shred_present(shred, meta, ie.index.data)
                &&& !(shred.last_in_slot() && shred.index() < meta.received)
                &&& data_shred_check(p.store, p.state.data_shreds, shred, meta) == (p.store, true)
            }
        }),
{
    let shred = all[i];
    lemma_slot_known(store, slot, parent, all, handed, p, was_marked, was_readable);
    let known = known_in(p.store.ledger, p.state.data_shreds, slot);
    let meta = meta_entry(p.store.ledger, p.state.slot_metas, slot, parent).new_slot_meta;
    let ie = index_entry(p.store.ledger, p.state.indexes, slot);
    assert(shred.index() == i);
    assert(ie.index.data.contains(i as u64) <==> known(i as u64));
    if !known(i as u64) {
        if meta.received > 0 {
            assert(known((meta.received - 1) as u64));
        }
        if i < meta.consumed {
            assert(known(i as u64));
        }
    }
}

/// One more shred is handed in.
proof fn lemma_one_taken_in(
    store: BlockstoreView,
    slot: Slot,
    parent: Slot,
    all: Seq<ShredView>,
    handed: Seq<ShredView>,
    i: int,
    p: Progress,
    is_repaired: bool,
    now: u64,
    at: usize,
    was_marked: bool,
    was_readable: bool,
)
    requires
        shreds_of_slot(slot, parent, all),
        consistent(store.ledger),
        can_take_in(store, slot, parent, all),
        taking_in(store, slot, parent, all, handed, p),
        progress_kept(p, true, was_marked, was_readable),
        0 <= i < all.len(),
    ensures
        taking_in(
            store,
            slot,
            parent,
            all,
            handed.push(all[i]),
            batch_step(p, all[i], is_repaired, false, now, at),
        ),
{
    let shred = all[i];
    assert(shred.is_data() && shred.slot() == slot && shred.index() == i && shred.parent() == Some(
        parent,
    ));
    assert(shred.last_in_slot() ==> i == all.len() - 1);
    lemma_slot_known(store, slot, parent, all, handed, p, was_marked, was_readable);
    lemma_accepted(store, slot, parent, all, handed, i, p, was_marked, was_readable);
    let known = known_in(p.store.ledger, p.state.data_shreds, slot);
    let key = shred_key(shred);
    let source = source_of(is_repaired);
    let step = data_step(p.store, p.state, shred, false, source, now);
    let q = batch_step(p, shred, is_repaired, false, now, at);
    let now_known = known_in(q.store.ledger, q.state.data_shreds, slot);
    let now_handed = handed.push(shred);
    if known(i as u64) {
        assert(q.state.data_shreds == p.state.data_shreds);
        assert(q.state.write_batch == p.state.write_batch);
    } else {
        assert(step.result is Ok);
        assert(q.state.data_shreds == p.state.data_shreds.insert(key, shred));
        assert(q.state.write_batch == p.state.write_batch.push(
            WriteOpView::PutDataShred(key, shred.stored()),
        ));
    }
    assert forall|j: u64| #[trigger] now_known(j) <==> known(j) || j == i by {
        assert(has_data(q.store.ledger, q.state.data_shreds, slot, j) <==> has_data(
            p.store.ledger,
            p.state.data_shreds,
            slot,
            j,
        ) || (SlotIndex { slot, index: j }) == key);
    }
    assert forall|j: u64| #[trigger] has_index(now_handed, j) <==> has_index(handed, j) || j == i by {
        assert(now_handed[handed.len() as int] == shred);
        if has_index(handed, j) {
            let x = choose|x: int| 0 <= x < handed.len() && (#[trigger] handed[x]).index() == j;
            assert(now_handed[x] == handed[x]);
        }
        if has_index(now_handed, j) {
            let x = choose|x: int|
                0 <= x < now_handed.len() && (#[trigger] now_handed[x]).index() == j;
            if x < handed.len() {
                assert(handed[x] == now_handed[x]);
            }
        }
    }
    assert forall|j: u64| #[trigger] now_known(j) <==> stored_in(store.ledger, slot)(j)
        || has_index(now_handed, j) by {
        assert(known(j) <==> stored_in(store.ledger, slot)(j) || has_index(handed, j));
        assert(has_index(now_handed, j) <==> has_index(handed, j) || j == i);
    }
}

/// Some of the shreds of a slot are handed in, one after the other.
proof fn lemma_taken_in(
    store: BlockstoreView,
    slot: Slot,
    parent: Slot,
    all: Seq<ShredView>,
    shreds: Seq<ShredView>,
    p0: Progress,
    is_repaired: Seq<bool>,
    now: u64,
    was_marked: bool,
    was_readable: bool,
)
    requires
        shreds_of_slot(slot, parent, all),
        consistent(store.ledger),
        can_take_in(store, slot, parent, all),
        taking_in(store, slot, parent, all, Seq::empty(), p0),
        progress_kept(p0, true, was_marked, was_readable),
        was_marked ==> all_faithful(shreds),
        was_readable ==> forall|i: int| 0 <= i < shreds.len() ==> (#[trigger] shreds[i]).is_data(),
        all_insertable(shreds, false, now),
        forall|i: int| 0 <= i < shreds.len() ==> all.contains(#[trigger] shreds[i]),
    ensures
        taking_in(
            store,
            slot,
            parent,
            all,
            shreds,
            batch_steps(p0, shreds, is_repaired, false, now),
        ),
    decreases shreds.len(),
{
    if shreds.len() == 0 {
        assert(shreds =~= Seq::empty());
    } else {
        let before = shreds.drop_last();
        let last = shreds.last();
        let n = shreds.len() - 1;
        assert forall|i: int| 0 <= i < before.len() implies all.contains(#[trigger] before[i])
            && insertable(before[i], false, now) && (was_readable ==> before[i].is_data()) && (
        was_marked ==> faithful(before[i])) by {
            assert(before[i] == shreds[i]);
        }
        assert(all_insertable(before, false, now));
        assert(was_marked ==> all_faithful(before));
        lemma_taken_in(
            store,
            slot,
            parent,
            all,
            before,
            p0,
            is_repaired,
            now,
            was_marked,
            was_readable,
        );
        lemma_insertable_allowed(p0, before, is_repaired, false, now);
        lemma_batch_steps_kept(
            p0,
            before,
            is_repaired,
            false,
            now,
            true,
            was_marked,
            was_readable,
        );
        assert(all.contains(shreds[n]));
        let at = choose|i: int| 0 <= i < all.len() && all[i] == last;
        lemma_one_taken_in(
            store,
            slot,
            parent,
            all,
            before,
            at,
            batch_steps(p0, before, is_repaired, false, now),
            is_repaired[n],
            now,
            n as usize,
            was_marked,
            was_readable,
        );
        assert(before.push(last) =~= shreds);
    }
}

/// Marking no slot dead leaves the dead slots as they are.
proof fn lemma_no_dead_slots(ledger: LedgerView, ops: Seq<WriteOpView>)
    requires
        forall|i: int| 0 <= i < ops.len() ==> (#[trigger] ops[i]) is PutDataShred,
    ensures
        ledger.apply_all(ops).dead_slots == ledger.dead_slots,
    decreases ops.len(),
{
    if ops.len() > 0 {
        let before = ops.drop_last();
        assert forall|i: int| 0 <= i < before.len() implies (
        #[trigger] before[i]) is PutDataShred by {
            assert(before[i] == ops[i]);
        }
        lemma_no_dead_slots(ledger, before);
        assert(ops[ops.len() - 1] is PutDataShred);
    }
}

/// What is known of a slot once its shreds are written.
proof fn lemma_slot_written(
    store: BlockstoreView,
    slot: Slot,
    parent: Slot,
    all: Seq<ShredView>,
    shreds: Seq<ShredView>,
    p: Progress,
    after: LedgerView,
)
    requires
        consistent(store.ledger),
        can_take_in(store, slot, parent, all),
        taking_in(store, slot, parent, all, shreds, p),
        progress_kept(p, true, true, true),
        batch_result(p.store.ledger, p.state, after),
    ensures
        holds_some(after, slot, all),
        forall|i: u64| #[trigger]
            stored_in(after, slot)(i) <==> stored_in(store.ledger, slot)(i) || has_index(shreds, i),
        ({
            let meta = meta_entry(after, Map::empty(), slot, parent).new_slot_meta;
            &&& meta.parent_slot == Some(parent)
            &&& meta.last_index == if ends_in(all, stored_in(after, slot)) {
                Some((all.len() - 1) as u64)
            } else {
                None
            }
        }),
        forall|i: u64| #[trigger]
            stored_in(after, slot)(i) ==> after.meta[slot].parent_slot == Some(parent),
        !dead(after, slot),
{
    let ledger = p.store.ledger;
    let known = known_in(ledger, p.state.data_shreds, slot);
    let present = stored_in(after, slot);
    assert(after.data_shreds == overlay(ledger.data_shreds, stored_shreds(p.state.data_shreds)));
    assert forall|i: u64| #[trigger] present(i) <==> known(i) by {
        let key = SlotIndex { slot, index: i };
        assert(stored_shreds(p.state.data_shreds).contains_key(key)
            == p.state.data_shreds.contains_key(key));
    }
    assert forall|i: u64| #[trigger] after.data_shreds.contains_key(
        SlotIndex { slot, index: i },
    ) implies i < all.len() && after.data_shreds[SlotIndex { slot, index: i }]
        == all[i as int].stored() by {
        let key = SlotIndex { slot, index: i };
        if p.state.data_shreds.contains_key(key) {
            assert(stored_shreds(p.state.data_shreds)[key] == p.state.data_shreds[key].stored());
        } else {
            assert(ledger.data_shreds.contains_key(key));
        }
    }
    assert forall|i: u64| #[trigger] present(i) <==> stored_in(store.ledger, slot)(i)
        || has_index(shreds, i) by {
        assert(present(i) <==> known(i));
    }
    lemma_no_dead_slots(ledger, p.state.write_batch);
    let c0 = ChainView { working: inserted_into(p.state.slot_metas), chained: Map::empty() };
    let c = chained_batch(ledger, p.state.slot_metas);
    if c0.working.contains_key(slot) {
        assert(orders(seq![slot], c0.working)) by {
            assert(seq![slot][0] == slot);
        }
        lemma_ordered_keys(seq![slot], c0.working);
        lemma_chained_batch_frames(ledger, p.state.slot_metas);
        assert(c.working.dom().contains(slot));
        assert(frame(effective_meta(ledger, c, slot)) == frame(effective_meta(ledger, c0, slot)));
        assert(after.meta.contains_key(slot));
        let meta = after.meta[slot];
        let entry = p.state.slot_metas[slot];
        assert(meta == effective_meta(ledger, c, slot));
        assert(frame(meta).last_index == frame(entry.new_slot_meta).last_index);
        assert(frame(meta).parent_slot == frame(entry.new_slot_meta).parent_slot);
        assert(meta.last_index == entry.new_slot_meta.last_index && meta.parent_slot
            == entry.new_slot_meta.parent_slot);
    } else {
        assert(c0.working =~= Map::empty());
        assert(orders(Seq::<u64>::empty(), c0.working));
        lemma_ordered_keys(Seq::<u64>::empty(), c0.working);
        assert(c == c0);
        assert(after.meta =~= ledger.meta);
        assert(p.state.data_shreds =~= Map::empty()) by {
            assert forall|k: SlotIndex| !#[trigger] p.state.data_shreds.contains_key(k) by {
                if p.state.data_shreds.contains_key(k) {
                    assert(p.state.slot_metas[k.slot].did_insert_occur);
                    assert(c0.working.contains_key(slot));
                }
            }
        }
        assert forall|i: u64| #[trigger] present(i) <==> stored_in(ledger, slot)(i) by {
            assert(present(i) <==> known(i));
        }
    }
}

/// A slot that can take in its shreds, `all`, takes in whatever of them comes, in any order and
/// also twice: it then holds exactly those that it held and those that came, each as it was
/// sent, and can take in more.
pub proof fn law_more_shreds_taken_in(
    store: BlockstoreView,
    slot: Slot,
    parent: Slot,
    all: Seq<ShredView>,
    batch: Batch,
    after: BlockstoreView,
)
    requires
        ledger_sound(store.ledger),
        consistent(store.ledger),
        ends_marked(store.ledger),
        shreds_of_slot(slot, parent, all),
        can_take_in(store, slot, parent, all),
        batch_among(batch, all),
        batch_made(store, batch, after),
    ensures
        can_take_in(after, slot, parent, all),
        forall|i: u64| #[trigger]
            stored_in(after.ledger, slot)(i) <==> stored_in(store.ledger, slot)(i) || has_index(
                batch.shreds,
                i,
            ),
        ledger_sound(after.ledger),
        consistent(after.ledger),
        ends_marked(after.ledger),
        after.last_root == store.last_root,
        after.lowest_cleanup_slot == store.lowest_cleanup_slot,
{
    let shreds = batch.shreds;
    let start = batch_start(batch.metrics, shreds.len() as usize);
    let p0 = Progress { store, state: start };
    assert forall|i: int| 0 <= i < shreds.len() implies insertable(
        #[trigger] shreds[i],
        false,
        batch.now,
    ) && faithful(shreds[i]) && shreds[i].is_data() by {
        assert(all.contains(shreds[i]));
        let j = choose|j: int| 0 <= j < all.len() && all[j] == shreds[i];
        assert(all[j].is_data());
    }
    lemma_start_sound(store.ledger, start.metrics);
    lemma_start_tracks(store.ledger, start);
    lemma_start_consistent(store.ledger, start);
    assert(store.ledger.apply_all(start.write_batch) == store.ledger);
    assert(progress_kept(p0, true, true, true));
    assert(taking_in(store, slot, parent, all, Seq::empty(), p0)) by {
        let known = known_in(p0.store.ledger, p0.state.data_shreds, slot);
        assert forall|i: u64| #[trigger] known(i) <==> stored_in(store.ledger, slot)(i)
            || has_index(Seq::empty(), i) by {
            assert(!has_index(Seq::empty(), i));
        }
    }
    lemma_taken_in(
        store,
        slot,
        parent,
        all,
        shreds,
        p0,
        batch.is_repaired,
        batch.now,
        true,
        true,
    );
    let p = batch_steps(p0, shreds, batch.is_repaired, false, batch.now);
    lemma_insertable_allowed(p0, shreds, batch.is_repaired, false, batch.now);
    lemma_batch_steps_kept(
        p0,
        shreds,
        batch.is_repaired,
        false,
        batch.now,
        true,
        true,
        true,
    );
    lemma_slot_written(store, slot, parent, all, shreds, p, after.ledger);
    assert(all_faithful(shreds));
}

/// A slot without data shreds can take in its shreds, if its parent is theirs or not known yet,
/// it is not dead, and it builds on the last root or on what comes after it.
pub proof fn law_empty_slot_can_take_in(
    store: BlockstoreView,
    slot: Slot,
    parent: Slot,
    all: Seq<ShredView>,
)
    requires
        consistent(store.ledger),
        forall|i: u64| !#[trigger] stored_in(store.ledger, slot)(i),
        store.ledger.meta.contains_key(slot) ==> store.ledger.meta[slot].parent_slot is None
            || store.ledger.meta[slot].parent_slot == Some(parent),
        !dead(store.ledger, slot),
        valid_shred_slots(slot, parent, store.last_root),
    ensures
        can_take_in(store, slot, parent, all),
{
    let present = stored_in(store.ledger, slot);
    assert forall|i: u64| !#[trigger] store.ledger.data_shreds.contains_key(
        SlotIndex { slot, index: i },
    ) by {
        assert(!present(i));
    }
    if store.ledger.meta.contains_key(slot) {
        assert(meta_agrees(store.ledger.meta[slot], present));
    }
    assert(!present((all.len() - 1) as u64));
}

/// The slot is full once its last shred, and all before it, are there.
proof fn lemma_full(store: BlockstoreView, slot: Slot, parent: Slot, all: Seq<ShredView>)
    requires
        consistent(store.ledger),
        can_take_in(store, slot, parent, all),
        0 < all.len() < u32::MAX,
        forall|i: u64| i < all.len() ==> #[trigger] stored_in(store.ledger, slot)(i),
    ensures
        store.ledger.meta.contains_key(slot),
        ({
            let meta = store.ledger.meta[slot];
            &&& meta.consumed == all.len()
            &&& meta.received == all.len()
            &&& meta.parent_slot == Some(parent)
            &&& all.last().last_in_slot() ==> meta.last_index == Some((all.len() - 1) as u64)
                && meta.is_full()
            &&& !all.last().last_in_slot() ==> meta.last_index is None
        }),
{
    let present = stored_in(store.ledger, slot);
    let n = all.len() as u64;
    assert(present((n - 1) as u64));
    assert(store.ledger.data_shreds.contains_key(SlotIndex { slot, index: (n - 1) as u64 }));
    let meta = store.ledger.meta[slot];
    assert(meta_agrees(meta, present));
    assert(!present(n)) by {
        if present(n) {
            assert(store.ledger.data_shreds.contains_key(SlotIndex { slot, index: n }));
        }
    }
    if meta.consumed < n {
        assert(present(meta.consumed));
    }
    if meta.consumed > n {
        assert(present(n));
    }
    if meta.received > n {
        let top = (meta.received - 1) as u64;
        assert(present(top));
        assert(store.ledger.data_shreds.contains_key(SlotIndex { slot, index: top }));
    }
}

/// The stores that some batches lead through, one after the other.
pub open spec fn batches_made(
    stores: Seq<BlockstoreView>,
    batches: Seq<Batch>,
    all: Seq<ShredView>,
) -> bool {
    &&& stores.len() == batches.len() + 1
    &&& forall|b: int|
        0 <= b < batches.len() ==> batch_among(#[trigger] batches[b], all) && batch_made(
            stores[b],
            batches[b],
            stores[b + 1],
        )
}

/// One of some batches has a shred of index `i`.
pub open spec fn came_in(batches: Seq<Batch>, i: u64) -> bool {
    exists|b: int| 0 <= b < batches.len() && has_index((#[trigger] batches[b]).shreds, i)
}

/// All batches but the last lead through all stores but the last.
proof fn lemma_batches_before(
    stores: Seq<BlockstoreView>,
    batches: Seq<Batch>,
    all: Seq<ShredView>,
)
    requires
        batches_made(stores, batches, all),
        batches.len() > 0,
    ensures
        batches_made(stores.drop_last(), batches.drop_last(), all),
{
    let earlier = batches.drop_last();
    let before = stores.drop_last();
    assert forall|b: int| 0 <= b < earlier.len() implies batch_among(#[trigger] earlier[b], all)
        && batch_made(before[b], earlier[b], before[b + 1]) by {
        assert(earlier[b] == batches[b]);
    }
}

/// A shred came with the last batch, or before it.
proof fn lemma_came_in(batches: Seq<Batch>, i: u64)
    requires
        batches.len() > 0,
    ensures
        came_in(batches, i) <==> came_in(batches.drop_last(), i) || has_index(
            batches[batches.len() - 1].shreds,
            i,
        ),
{
    let n = batches.len() - 1;
    let earlier = batches.drop_last();
    if came_in(earlier, i) {
        let b = choose|b: int|
            0 <= b < earlier.len() && has_index((#[trigger] earlier[b]).shreds, i);
        assert(batches[b] == earlier[b]);
    }
    if came_in(batches, i) {
        let b = choose|b: int|
            0 <= b < batches.len() && has_index((#[trigger] batches[b]).shreds, i);
        if b < n {
            assert(earlier[b] == batches[b]);
        }
    }
}

/// Some batches of the shreds of a slot are taken in, one after the other.
#[verifier::rlimit(40)]
#[verifier::spinoff_prover]
proof fn lemma_batches_taken_in(
    slot: Slot,
    parent: Slot,
    all: Seq<ShredView>,
    stores: Seq<BlockstoreView>,
    batches: Seq<Batch>,
)
    requires
        batches_made(stores, batches, all),
        ledger_sound(stores[0].ledger),
        consistent(stores[0].ledger),
        ends_marked(stores[0].ledger),
        shreds_of_slot(slot, parent, all),
        can_take_in(stores[0], slot, parent, all),
    ensures
        can_take_in(stores.last(), slot, parent, all),
        forall|i: u64| #[trigger]
            stored_in(stores.last().ledger, slot)(i) <==> stored_in(stores[0].ledger, slot)(i)
                || came_in(batches, i),
        ledger_sound(stores.last().ledger),
        consistent(stores.last().ledger),
        ends_marked(stores.last().ledger),
        stores.last().lowest_cleanup_slot == stores[0].lowest_cleanup_slot,
    decreases batches.len(),
{
    if batches.len() > 0 {
        let n = batches.len() - 1;
        let earlier = batches.drop_last();
        let before = stores.drop_last();
        lemma_batches_before(stores, batches, all);
        lemma_batches_taken_in(slot, parent, all, before, earlier);
        assert(batch_among(batches[n], all));
        law_more_shreds_taken_in(stores[n], slot, parent, all, batches[n], stores[n + 1]);
        assert forall|i: u64| #[trigger] stored_in(stores.last().ledger, slot)(i) <==> stored_in(
            stores[0].ledger,
            slot,
        )(i) || came_in(batches, i) by {
            assert(stored_in(before.last().ledger, slot)(i) <==> stored_in(
                stores[0].ledger,
                slot,
            )(i) || came_in(earlier, i));
            lemma_came_in(batches, i);
        }
    } else {
        assert forall|i: u64| !#[trigger] came_in(batches, i) by {
        }
    }
}

/// What is inserted is read back: the shreds that the runs of a slot were cut into, inserted in
/// any number of calls and in any order into a slot that can take them in, leave a store that
/// gives the entries of these runs for the slot. If the last run ends the slot, the slot is full.
/// Before all shreds are in, the entries are those of the first runs of which none is missing:
/// none at all before the first shred came.
pub proof fn law_inserted_entries_read_back(
    slot: Slot,
    parent: Slot,
    runs: Seq<EntryRun>,
    stores: Seq<BlockstoreView>,
    batches: Seq<Batch>,
)
    requires
        runs.len() > 0,
        runs_of(slot, parent, runs),
        batches_made(stores, batches, run_shreds(runs)),
        ledger_sound(stores[0].ledger),
        consistent(stores[0].ledger),
        ends_marked(stores[0].ledger),
        !cleaned_up(stores[0], slot),
        can_take_in(stores[0], slot, parent, run_shreds(runs)),
    ensures
        forall|k: int| #[trigger]
            holds_runs(stores.last().ledger, slot, runs, k) ==> slot_entries(stores.last(), slot, 0)
                == Ok::<Seq<EntryView>, BlockstoreError>(run_entries(runs.take(k))),
        !stored_in(stores.last().ledger, slot)(0) ==> slot_entries(stores.last(), slot, 0) == Ok::<
            Seq<EntryView>,
            BlockstoreError,
        >(Seq::empty()) && (stores.last().ledger.meta.contains_key(slot)
            ==> stores.last().ledger.meta[slot].consumed == 0),
        (forall|i: u64|
            i < run_shreds(runs).len() ==> stored_in(stores[0].ledger, slot)(i) || #[trigger]
                came_in(batches, i)) ==> {
            let after = stores.last();
            let meta = after.ledger.meta[slot];
            &&& slot_entries(after, slot, 0) == Ok::<Seq<EntryView>, BlockstoreError>(
                run_entries(runs),
            )
            &&& after.ledger.meta.contains_key(slot)
            &&& meta.consumed == run_shreds(runs).len()
            &&& meta.received == run_shreds(runs).len()
            &&& meta.parent_slot == Some(parent)
            &&& meta.last_index == if runs.last().is_last_in_slot {
                Some((run_shreds(runs).len() - 1) as u64)
            } else {
                None
            }
            &&& runs.last().is_last_in_slot ==> meta.is_full()
        },
{
    let all = run_shreds(runs);
    let after = stores.last();
    lemma_run_shreds_of_slot(slot, parent, runs);
    lemma_batches_taken_in(slot, parent, all, stores, batches);
    assert forall|k: int| #[trigger] holds_runs(after.ledger, slot, runs, k) implies slot_entries(
        after,
        slot,
        0,
    ) == Ok::<Seq<EntryView>, BlockstoreError>(run_entries(runs.take(k))) by {
        law_slot_reads_back(after, slot, parent, runs, k);
    }
    let present = stored_in(after.ledger, slot);
    if !present(0) {
        assert(runs.take(0) =~= Seq::empty());
        assert(runs[0].bytes.len() > 0);
        lemma_run_lens(runs, 0);
        assert(holds_runs(after.ledger, slot, runs, 0));
        if after.ledger.meta.contains_key(slot) {
            assert(meta_agrees(after.ledger.meta[slot], present));
        }
    }
    if forall|i: u64|
        i < run_shreds(runs).len() ==> stored_in(stores[0].ledger, slot)(i) || #[trigger] came_in(
            batches,
            i,
        ) {
        assert forall|i: u64| i < all.len() implies #[trigger] present(i) by {
            assert(stored_in(stores[0].ledger, slot)(i) || came_in(batches, i));
        }
        assert(runs.take(runs.len() as int) =~= runs);
        assert(holds_runs(after.ledger, slot, runs, runs.len() as int));
        lemma_full(after, slot, parent, all);
    }
}

} // verus!
