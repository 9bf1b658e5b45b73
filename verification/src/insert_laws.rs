//! Which shreds an insertion takes in, and what it notes of their slots.

use vstd::prelude::*;
use crate::batch::{
    batch_allowed, batch_outcome, batch_start, batch_step, batch_steps, ledger_sound,
    lemma_batch_steps_sound, lemma_recovered_steps_sound, lemma_start_sound, recovered_steps,
    step_allowed, Progress, RecoveredShredView,
};
use crate::blockstore::{lemma_apply_one, BlockstoreView};
use crate::chaining::{
    chained_batch, completed_slots, effective_meta, inserted_into, meta_changed, ChainView,
    MetaEntryView,
};
use crate::coding::{conflict_at, first_conflict};
use crate::column::{lemma_finite_orders, ordered_keys, SlotIndex};
use crate::consistency::{
    consistent, lemma_batch_steps_kept, lemma_recovered_steps_kept, meta_agrees, progress_kept,
    stored_in,
};
use crate::insert::{all_received, batch_inserted, ledger_result};
use crate::insertion::{filled, CompletedDataSetInfo, InsertionView};
use crate::integrity::{frame, lemma_chained_batch_frames, lemma_start_tracks};
use crate::ledger::{LedgerView, WriteOpView};
use crate::meta::{DuplicateSlotProofView, ErasureConfig, ErasureMeta, SlotMetaView};
use crate::metrics::{more, BlockstoreInsertionMetrics};
use crate::recovery_laws::{coding_from, home_of, set_key};
use crate::run_laws::{is_run, lemma_completes};
use crate::shred::{parse_shred, ShredType, ShredView, SHRED_PAYLOAD_SIZE};
use crate::slot_update::{completed_runs, has_updates};
use crate::types::Slot;

verus! {

/// The parent that a data shred names: as far below its slot as it says. There is none where that
/// is below 0, or where a slot other than 0 would be its own parent.
pub open spec fn named_parent(shred: ShredView) -> Option<Slot> {
    let slot = shred.common_header.slot;
    let offset = shred.data_header.parent_offset;
    if offset > slot || (offset == 0 && slot != 0) {
        None
    } else {
        Some((slot - offset) as u64)
    }
}

/// The parent of the slot of a data shred: the one that is known, or else the one that it names.
pub open spec fn parent_for(ledger: LedgerView, shred: ShredView) -> Option<Slot> {
    let slot = shred.common_header.slot;
    if ledger.meta.contains_key(slot) && ledger.meta[slot].parent_slot is Some {
        ledger.meta[slot].parent_slot
    } else {
        named_parent(shred)
    }
}

/// A data shred is there: it is one of the consecutive ones of its slot, or its slot's index lists
/// it.
pub open spec fn is_there(ledger: LedgerView, shred: ShredView) -> bool {
    let slot = shred.common_header.slot;
    let index = shred.common_header.index as u64;
    ||| ledger.meta.contains_key(slot) && index < ledger.meta[slot].consumed
    ||| ledger.index.contains_key(slot) && ledger.index[slot].data.contains(index)
}

/// The last shred of the slot of a data shred is known, and it is at or past that.
pub open spec fn is_past_the_end(ledger: LedgerView, shred: ShredView) -> bool {
    let slot = shred.common_header.slot;
    ledger.meta.contains_key(slot) && ledger.meta[slot].last_index is Some
        && shred.common_header.index >= ledger.meta[slot].last_index->0
}

/// A data shred is marked as the last of its slot.
pub open spec fn marked_last(shred: ShredView) -> bool {
    shred.data_header.flags & 0x80u8 == 0x80u8
}

/// A data shred is marked as the end of a run of entries.
pub open spec fn marked_complete(shred: ShredView) -> bool {
    shred.data_header.flags & 0x40u8 == 0x40u8
}

/// A data shred is marked as the last of its slot, but there is one with a higher index.
pub open spec fn ends_too_early(ledger: LedgerView, shred: ShredView) -> bool {
    let slot = shred.common_header.slot;
    marked_last(shred) && ledger.meta.contains_key(slot) && shred.common_header.index
        < ledger.meta[slot].received
}

/// A data shred holds something, and is not longer than a shred.
pub open spec fn has_good_size(shred: ShredView) -> bool {
    shred.data_header.size > 0 && shred.payload.len() <= SHRED_PAYLOAD_SIZE
}

/// A slot may build on a parent: on one below it that is not below the last root; and slot 0 on
/// itself as long as nothing above it is rooted.
pub open spec fn may_build_on(slot: Slot, parent: Slot, last_root: Slot) -> bool {
    last_root <= parent < slot || (slot == 0 && parent == 0 && last_root == 0)
}

/// A data shred belongs into its slot.
pub open spec fn belongs(store: BlockstoreView, shred: ShredView) -> bool {
    &&& named_parent(shred) is Some
    &&& !is_there(store.ledger, shred)
    &&& has_good_size(shred)
    &&& !is_past_the_end(store.ledger, shred)
    &&& !ends_too_early(store.ledger, shred)
    &&& may_build_on(
        shred.common_header.slot,
        parent_for(store.ledger, shred)->0,
        store.last_root,
    )
}

/// A data shred shows that its slot has two versions.
pub open spec fn shows_two_versions(ledger: LedgerView, shred: ShredView) -> bool {
    &&& named_parent(shred) is Some
    &&& !is_there(ledger, shred)
    &&& has_good_size(shred)
    &&& is_past_the_end(ledger, shred) || ends_too_early(ledger, shred)
}

/// The state once one shred was handed in.
pub proof fn lemma_one_shred(
    store: BlockstoreView,
    shred: ShredView,
    is_repaired: bool,
    is_trusted: bool,
    now: u64,
    metrics: BlockstoreInsertionMetrics,
)
    ensures
        ({
            let p0 = Progress { store, state: batch_start(metrics, 1) };
            all_received(
                store,
                seq![shred],
                seq![is_repaired],
                is_trusted,
                now,
                metrics,
                None,
            ) == batch_step(p0, shred, is_repaired, is_trusted, now, 0)
        }),
{
    let p0 = Progress { store, state: batch_start(metrics, 1) };
    let one = seq![shred];
    assert(one.drop_last() =~= Seq::empty());
    assert(one.last() == shred);
    assert(batch_steps(p0, one.drop_last(), seq![is_repaired], is_trusted, now) == p0);
}

/// A data shred that is handed in unchecked is inserted exactly where it names a parent. One that
/// is checked is inserted exactly where it belongs into its slot. One that is there already is
/// handed back, and no other.
pub proof fn law_which_data_shreds_are_inserted(
    store: BlockstoreView,
    shred: ShredView,
    is_repaired: bool,
    is_trusted: bool,
    now: u64,
    metrics: BlockstoreInsertionMetrics,
    has_completed_slots_senders: bool,
)
    requires
        shred.common_header.shred_type == ShredType::Data,
    ensures
        ({
            let outcome = batch_inserted(
                store,
                seq![shred],
                seq![is_repaired],
                is_trusted,
                now,
                metrics,
                None,
                has_completed_slots_senders,
            ).1;
            let inserted = if is_trusted {
                named_parent(shred) is Some
            } else {
                belongs(store, shred)
            };
            &&& inserted ==> outcome.inserted_indices == seq![0usize]
            &&& !inserted ==> outcome.inserted_indices.len() == 0
            &&& !is_trusted && named_parent(shred) is Some && is_there(store.ledger, shred)
                ==> outcome.duplicates == seq![shred]
            &&& is_trusted || named_parent(shred) is None || !is_there(store.ledger, shred)
                ==> outcome.duplicates.len() == 0
            &&& outcome.retransmit.len() == 0
        }),
{
    lemma_one_shred(store, shred, is_repaired, is_trusted, now, metrics);
    let st = batch_start(metrics, 1);
    assert(st.inserted_indices.push(0usize) =~= seq![0usize]);
    assert(st.duplicates.push(shred) =~= seq![shred]);
}

/// The first proof that a slot has two versions is kept, and no other slot gets one: a checked
/// data shred past the end of its slot is held against the last shred of the slot, and one that
/// would end its slot too early against the highest, each as it is read.
pub proof fn law_two_versions_are_proved(
    store: BlockstoreView,
    shred: ShredView,
    is_repaired: bool,
    is_trusted: bool,
    now: u64,
    metrics: BlockstoreInsertionMetrics,
    after: LedgerView,
)
    requires
        shred.common_header.shred_type == ShredType::Data,
        ledger_result(
            store,
            after,
            seq![shred],
            seq![is_repaired],
            is_trusted,
            now,
            metrics,
            None,
        ),
    ensures
        ({
            let ledger = store.ledger;
            let slot = shred.common_header.slot;
            let meta = ledger.meta[slot];
            let other = SlotIndex {
                slot,
                index: if is_past_the_end(ledger, shred) {
                    meta.last_index->0
                } else {
                    (meta.received - 1) as u64
                },
            };
            if !is_trusted && shows_two_versions(ledger, shred)
                && !ledger.duplicate_slots.contains_key(slot) {
                &&& after.duplicate_slots.contains_key(slot)
                &&& after.duplicate_slots[slot].shred1 == filled(ledger.data_shreds[other])
                &&& after.duplicate_slots[slot].shred2 == shred.payload
                &&& after.duplicate_slots.remove(slot) == ledger.duplicate_slots
            } else {
                after.duplicate_slots == ledger.duplicate_slots
            }
        }),
{
    lemma_one_shred(store, shred, is_repaired, is_trusted, now, metrics);
    let ledger = store.ledger;
    let slot = shred.common_header.slot;
    let p0 = Progress { store, state: batch_start(metrics, 1) };
    let p = batch_step(p0, shred, is_repaired, is_trusted, now, 0);
    if !is_trusted && shows_two_versions(ledger, shred) && !ledger.duplicate_slots.contains_key(
        slot,
    ) {
        let proof_of = p.store.ledger.duplicate_slots[slot];
        lemma_apply_one(ledger, WriteOpView::PutDuplicateSlot(slot, proof_of));
        assert(ledger.duplicate_slots.insert(slot, proof_of).remove(slot)
            =~= ledger.duplicate_slots);
    }
}

/// What is noted of the slot of a data shred that is inserted: its parent, where none was known;
/// the highest index, if it is higher; its end, where the shred is marked as the last and no end
/// was known; the end of a run, where the shred is marked so; and when the first shred came. The
/// other slots that something was known of keep all of this.
pub proof fn law_inserted_data_shred_is_noted(
    store: BlockstoreView,
    shred: ShredView,
    is_repaired: bool,
    is_trusted: bool,
    now: u64,
    metrics: BlockstoreInsertionMetrics,
    after: LedgerView,
)
    requires
        shred.common_header.shred_type == ShredType::Data,
        if is_trusted {
            named_parent(shred) is Some
        } else {
            belongs(store, shred)
        },
        batch_allowed(store, seq![shred], seq![is_repaired], is_trusted, now, metrics),
        ledger_sound(store.ledger),
        ledger_result(
            store,
            after,
            seq![shred],
            seq![is_repaired],
            is_trusted,
            now,
            metrics,
            None,
        ),
    ensures
        ({
            let slot = shred.common_header.slot;
            let i = shred.common_header.index;
            let was_known = store.ledger.meta.contains_key(slot);
            let before = store.ledger.meta[slot];
            let was_received = if was_known {
                before.received as int
            } else {
                0
            };
            let had_end = was_known && before.last_index is Some;
            let meta = after.meta[slot];
            &&& after.meta.contains_key(slot)
            &&& meta.slot == if was_known {
                before.slot
            } else {
                slot
            }
            &&& meta.parent_slot == parent_for(store.ledger, shred)
            &&& meta.received == if i + 1 > was_received {
                i + 1
            } else {
                was_received
            }
            &&& had_end ==> meta.last_index == before.last_index
            &&& !had_end && marked_last(shred) ==> meta.last_index == Some(i as u64)
            &&& !had_end && !marked_last(shred) ==> meta.last_index is None
            &&& forall|x: u32| #[trigger]
                meta.completed_data_indexes.contains(x) <==> (was_known
                    && before.completed_data_indexes.contains(x)) || (x == i && (marked_last(shred)
                    || marked_complete(shred)))
            &&& meta.first_shred_timestamp == if was_received > 0 {
                before.first_shred_timestamp as int
            } else {
                now - (shred.data_header.flags & 0x3fu8) * 1000 / 160
            }
            &&& forall|s: Slot| #[trigger]
                store.ledger.meta.contains_key(s) && s != slot ==> after.meta.contains_key(s)
                    && same_but_links(store.ledger.meta[s], after.meta[s])
        }),
{
    lemma_one_shred(store, shred, is_repaired, is_trusted, now, metrics);
    let slot = shred.common_header.slot;
    let ledger = store.ledger;
    let p0 = Progress { store, state: batch_start(metrics, 1) };
    let p = batch_step(p0, shred, is_repaired, is_trusted, now, 0);
    let kept = inserted_into(p.state.slot_metas);
    lemma_start_sound(ledger, p0.state.metrics);
    lemma_batch_steps_sound(p0, seq![shred], seq![is_repaired], is_trusted, now);
    assert(p.store.ledger.meta == ledger.meta);
    assert(kept.contains_key(slot));
    assert(kept.dom() =~= Set::empty().insert(slot));
    lemma_finite_orders(kept);
    lemma_chained_batch_frames(p.store.ledger, p.state.slot_metas);
    let a = ChainView { working: kept, chained: Map::<u64, SlotMetaView>::empty() };
    let c = chained_batch(p.store.ledger, p.state.slot_metas);
    assert(a.working.dom() == c.working.dom());
    assert(c.working.dom().contains(slot));
    assert(after.meta[slot] == effective_meta(p.store.ledger, c, slot));
    assert(frame(after.meta[slot]) == frame(kept[slot].new_slot_meta));
    assert forall|s: Slot| #[trigger]
        ledger.meta.contains_key(s) && s != slot implies after.meta.contains_key(s)
        && same_but_links(ledger.meta[s], after.meta[s]) by {
        assert(!a.working.dom().contains(s));
        assert(after.meta[s] == effective_meta(p.store.ledger, c, s));
        assert(frame(effective_meta(p.store.ledger, c, s)) == frame(ledger.meta[s]));
    }
}

/// A checked data shred that would end its slot too early shows that there is a shorter version of
/// the slot. Where some shreds of the slot are still missing, the slot is marked dead. Nothing else
/// marks a slot dead, or takes such a mark away.
pub proof fn law_shorter_version_makes_a_slot_dead(
    store: BlockstoreView,
    shred: ShredView,
    is_repaired: bool,
    is_trusted: bool,
    now: u64,
    metrics: BlockstoreInsertionMetrics,
    after: LedgerView,
)
    requires
        ledger_result(
            store,
            after,
            seq![shred],
            seq![is_repaired],
            is_trusted,
            now,
            metrics,
            None,
        ),
    ensures
        ({
            let ledger = store.ledger;
            let slot = shred.common_header.slot;
            let meta = ledger.meta[slot];
            let is_full = meta.last_index is Some && meta.consumed == meta.last_index->0 + 1;
            let is_data = shred.common_header.shred_type == ShredType::Data;
            after.dead_slots == if is_data && !is_trusted && named_parent(shred) is Some
                && !is_there(ledger, shred) && ends_too_early(ledger, shred) && !is_full {
                ledger.dead_slots.insert(slot, true)
            } else {
                ledger.dead_slots
            }
        }),
{
    lemma_one_shred(store, shred, is_repaired, is_trusted, now, metrics);
    let p0 = Progress { store, state: batch_start(metrics, 1) };
    let p = batch_step(p0, shred, is_repaired, is_trusted, now, 0);
    let ops = p.state.write_batch;
    let l = p.store.ledger;
    assert forall|a: Seq<u8>, b: Seq<u8>|
        (#[trigger] store.with_duplicate(shred.common_header.slot, a, b)).ledger.dead_slots
            == store.ledger.dead_slots by {
        lemma_apply_one(
            store.ledger,
            WriteOpView::PutDuplicateSlot(
                shred.common_header.slot,
                DuplicateSlotProofView { shred1: a, shred2: b },
            ),
        );
    }
    assert(l.dead_slots == store.ledger.dead_slots);
    assert(ops.len() <= 2);
    if ops.len() == 1 {
        assert(ops =~= seq![ops[0]]);
        lemma_apply_one(l, ops[0]);
    } else if ops.len() == 2 {
        assert(ops.drop_last() =~= seq![ops[0]]);
        lemma_apply_one(l, ops[0]);
        assert(l.apply_all(ops) == l.apply_all(ops.drop_last()).apply(ops[1]));
    } else {
        assert(l.apply_all(ops) == l);
    }
}

/// The runs that an inserted data shred is told to complete are exactly those runs of its slot
/// that are there with it and were not there without it: a run starts at index 0 or after an end,
/// goes up to the next end, and has all its shreds. The shred is such an end where it is marked as
/// the end of a run, or as the last of its slot.
pub proof fn law_completed_runs_are_reported(
    store: BlockstoreView,
    shred: ShredView,
    is_repaired: bool,
    now: u64,
    metrics: BlockstoreInsertionMetrics,
    has_completed_slots_senders: bool,
    run: CompletedDataSetInfo,
)
    requires
        shred.common_header.shred_type == ShredType::Data,
        shred.common_header.index < u32::MAX,
        belongs(store, shred),
        consistent(store.ledger),
    ensures
        ({
            let slot = shred.common_header.slot;
            let i = shred.common_header.index;
            let present = if store.ledger.index.contains_key(slot) {
                store.ledger.index[slot].data
            } else {
                Set::empty()
            };
            let ends = if store.ledger.meta.contains_key(slot) {
                store.ledger.meta[slot].completed_data_indexes
            } else {
                Set::empty()
            };
            let ends_with = if marked_last(shred) || marked_complete(shred) {
                ends.insert(i)
            } else {
                ends
            };
            let told = batch_inserted(
                store,
                seq![shred],
                seq![is_repaired],
                false,
                now,
                metrics,
                None,
                has_completed_slots_senders,
            ).1.completed_data_sets;
            let bounds = (run.start_index, run.end_index);
            told.contains(run) <==> run.slot == slot && is_run(
                present.insert(i as u64),
                ends_with,
                bounds,
            ) && !is_run(present, ends, bounds)
        }),
{
    lemma_one_shred(store, shred, is_repaired, false, now, metrics);
    let slot = shred.common_header.slot;
    let i = shred.common_header.index;
    let ledger = store.ledger;
    let p0 = Progress { store, state: batch_start(metrics, 1) };
    let p = batch_step(p0, shred, is_repaired, false, now, 0);
    let present = if ledger.index.contains_key(slot) {
        ledger.index[slot].data
    } else {
        Set::empty()
    };
    let ends = if ledger.meta.contains_key(slot) {
        ledger.meta[slot].completed_data_indexes
    } else {
        Set::empty()
    };
    let ends_run = marked_last(shred) || marked_complete(shred);
    let bounds = (run.start_index, run.end_index);
    assert forall|x: u32| #[trigger] ends.contains(x) implies present.contains(x as u64) by {
        assert(meta_agrees(ledger.meta[slot], stored_in(ledger, slot)));
        assert(stored_in(ledger, slot)(x as u64));
        assert(ledger.data_shreds.contains_key(SlotIndex { slot, index: x as u64 }));
    }
    lemma_completes(present, ends, i, ends_run, bounds);
    let runs = completed_runs(ends_run, i, present.insert(i as u64), ends);
    let told = p.state.completed_data_sets;
    assert(told =~= Seq::new(
        runs.len(),
        |x: int| CompletedDataSetInfo { slot, start_index: runs[x].0, end_index: runs[x].1 },
    ));
    if told.contains(run) {
        let x = choose|x: int| 0 <= x < told.len() && told[x] == run;
        assert(runs[x] == bounds);
    }
    if run.slot == slot && runs.contains(bounds) {
        let x = choose|x: int| 0 <= x < runs.len() && runs[x] == bounds;
        assert(told[x] == run);
    }
}

/// Two records of a slot differ at most in its children, and in whether it is connected.
pub open spec fn same_but_links(a: SlotMetaView, b: SlotMetaView) -> bool {
    &&& a.slot == b.slot
    &&& a.consumed == b.consumed
    &&& a.received == b.received
    &&& a.first_shred_timestamp == b.first_shred_timestamp
    &&& a.last_index == b.last_index
    &&& a.parent_slot == b.parent_slot
    &&& a.completed_data_indexes == b.completed_data_indexes
}

/// The headers of a coding shred agree with each other: the set has data shreds, not too many
/// coding shreds, and this is one of them; and all indexes of the set can be told.
pub open spec fn has_good_coding_headers(shred: ShredView) -> bool {
    let h = shred.coding_header;
    let first_data = shred.common_header.fec_set_index;
    let index = shred.common_header.index;
    &&& 0 < h.num_data_shreds
    &&& h.num_coding_shreds <= 256
    &&& h.position < h.num_coding_shreds
    &&& h.position <= index
    &&& first_data + h.num_data_shreds <= 0x1_0000_0000
    &&& first_data + h.num_coding_shreds <= 0x1_0000_0000
    &&& index - h.position + h.num_coding_shreds <= 0x1_0000_0000
}

/// The erasure set that a coding shred tells of.
pub open spec fn own_set(shred: ShredView) -> ErasureMeta {
    ErasureMeta {
        set_index: shred.common_header.fec_set_index as u64,
        first_coding_index: (shred.common_header.index - shred.coding_header.position) as u64,
        config: ErasureConfig {
            num_data: shred.coding_header.num_data_shreds as u64,
            num_coding: shred.coding_header.num_coding_shreds as u64,
        },
    }
}

/// The erasure set of a coding shred: the one that is known, or else the one that it tells of.
pub open spec fn set_for(ledger: LedgerView, shred: ShredView) -> ErasureMeta {
    if ledger.erasure_meta.contains_key(set_key(shred)) {
        ledger.erasure_meta[set_key(shred)]
    } else {
        own_set(shred)
    }
}

/// A coding shred tells of the same set as the one that is known.
pub open spec fn fits_its_set(ledger: LedgerView, shred: ShredView) -> bool {
    &&& shred.coding_header.position <= shred.common_header.index
    &&& own_set(shred).set_index == set_for(ledger, shred).set_index
    &&& own_set(shred).config == set_for(ledger, shred).config
}

/// The index of a slot lists a coding shred.
pub open spec fn coding_is_there(ledger: LedgerView, shred: ShredView) -> bool {
    let slot = shred.common_header.slot;
    ledger.index.contains_key(slot) && ledger.index[slot].coding.contains(
        shred.common_header.index as u64,
    )
}

/// A coding shred is taken in: it fits its set, and, where it is checked, it is not there, its
/// headers agree, and its slot is above the last root.
pub open spec fn coding_belongs(store: BlockstoreView, shred: ShredView, is_trusted: bool) -> bool {
    &&& fits_its_set(store.ledger, shred)
    &&& is_trusted || (!coding_is_there(store.ledger, shred) && has_good_coding_headers(shred)
        && shred.common_header.slot > store.last_root)
}

/// A coding shred that is handed in is stored as it was sent, listed, and its erasure set noted,
/// exactly where it belongs; otherwise the coding shreds stay what they are. The other coding
/// shreds stay in any case. One that is there already is handed back.
pub proof fn law_which_coding_shreds_are_inserted(
    store: BlockstoreView,
    shred: ShredView,
    is_repaired: bool,
    is_trusted: bool,
    now: u64,
    metrics: BlockstoreInsertionMetrics,
    has_completed_slots_senders: bool,
    after: LedgerView,
)
    requires
        shred.common_header.shred_type == ShredType::Code,
        batch_allowed(store, seq![shred], seq![is_repaired], is_trusted, now, metrics),
        ledger_sound(store.ledger),
        ledger_result(
            store,
            after,
            seq![shred],
            seq![is_repaired],
            is_trusted,
            now,
            metrics,
            None,
        ),
    ensures
        ({
            let key = home_of(shred);
            let outcome = batch_inserted(
                store,
                seq![shred],
                seq![is_repaired],
                is_trusted,
                now,
                metrics,
                None,
                has_completed_slots_senders,
            ).1;
            &&& coding_belongs(store, shred, is_trusted) ==> {
                &&& after.code_shreds == store.ledger.code_shreds.insert(key, shred.payload)
                &&& after.index.contains_key(key.slot)
                &&& after.index[key.slot].coding.contains(key.index)
                &&& after.erasure_meta.contains_key(set_key(shred))
                &&& after.erasure_meta[set_key(shred)] == set_for(store.ledger, shred)
            }
            &&& !coding_belongs(store, shred, is_trusted) ==> {
                &&& after.code_shreds == store.ledger.code_shreds
                &&& after.index == store.ledger.index
            }
            &&& !is_trusted && coding_is_there(store.ledger, shred) ==> outcome.duplicates
                == seq![shred]
            &&& is_trusted || !coding_is_there(store.ledger, shred) ==> outcome.duplicates.len()
                == 0
            &&& after.data_shreds == store.ledger.data_shreds
            &&& outcome.inserted_indices.len() == 0
        }),
{
    lemma_one_shred(store, shred, is_repaired, is_trusted, now, metrics);
    let ledger = store.ledger;
    let p0 = Progress { store, state: batch_start(metrics, 1) };
    let p = batch_step(p0, shred, is_repaired, is_trusted, now, 0);
    let one = seq![shred];
    assert(one.drop_last() =~= Seq::empty());
    assert(batch_steps(p0, one.drop_last(), seq![is_repaired], is_trusted, now) == p0);
    assert(step_allowed(p0, shred, is_repaired, is_trusted, now));
    lemma_start_sound(ledger, p0.state.metrics);
    lemma_batch_steps_sound(p0, seq![shred], seq![is_repaired], is_trusted, now);
    let st = p.state;
    assert(p.store.ledger.code_shreds == ledger.code_shreds);
    assert(after.data_shreds =~= ledger.data_shreds);
    if coding_belongs(store, shred, is_trusted) {
        let op = WriteOpView::PutCodeShred(home_of(shred), shred.payload);
        assert(st.write_batch =~= seq![op]);
        lemma_apply_one(p.store.ledger, op);
        assert(after.index.contains_key(shred.common_header.slot));
    } else {
        assert(st.write_batch =~= Seq::empty());
        assert(p.store.ledger.apply_all(st.write_batch) == p.store.ledger);
        assert(after.index =~= ledger.index);
    }
    assert(batch_start(metrics, 1).duplicates.push(shred) =~= seq![shred]);
}

/// A coding shred is of a set of another size.
pub open spec fn other_size(a: ShredView, b: ShredView) -> bool {
    a.coding_header.num_data_shreds != b.coding_header.num_data_shreds
        || a.coding_header.num_coding_shreds != b.coding_header.num_coding_shreds
}

/// Among the indexes of the coding shreds of an erasure set there is one with a coding shred of a
/// set of another size than a shred.
pub open spec fn conflicts_at(
    ledger: LedgerView,
    meta: ErasureMeta,
    shred: ShredView,
    i: u64,
) -> bool {
    let k = SlotIndex { slot: shred.common_header.slot, index: i };
    &&& coding_from(meta) <= i < coding_from(meta) + meta.config.num_coding
    &&& ledger.code_shreds.contains_key(k)
    &&& other_size(parse_shred(ledger.code_shreds[k])->0, shred)
}

proof fn lemma_first_conflict(
    ledger: LedgerView,
    shred: ShredView,
    from: int,
    to: int,
)
    requires
        0 <= from,
        to <= 0x1_0000_0000,
    ensures
        match first_conflict(ledger, Map::empty(), shred, from, to) {
            Some(bytes) => exists|i: u64| from <= i < to && #[trigger]
                is_conflict(ledger, shred, i, bytes),
            None => forall|i: u64, bytes: Seq<u8>|
                from <= i < to ==> !#[trigger] is_conflict(ledger, shred, i, bytes),
        },
    decreases to - from,
{
    if from < to {
        lemma_first_conflict(ledger, shred, from + 1, to);
        let at = conflict_at(ledger, Map::empty(), shred, from as u64);
        if at is Some {
            assert(is_conflict(ledger, shred, from as u64, at->0));
        }
    }
}

/// The coding shred at an index is of a set of another size than a shred, and its bytes are given.
pub open spec fn is_conflict(
    ledger: LedgerView,
    shred: ShredView,
    i: u64,
    bytes: Seq<u8>,
) -> bool {
    let k = SlotIndex { slot: shred.common_header.slot, index: i };
    &&& ledger.code_shreds.contains_key(k)
    &&& other_size(parse_shred(ledger.code_shreds[k])->0, shred)
    &&& bytes == parse_shred(ledger.code_shreds[k])->0.payload
}

/// A coding shred that is checked, but does not fit its erasure set, is kept with a coding shred of
/// the set that is of another size, as a proof that the slot has two versions: where there is
/// such a shred, and no proof yet.
pub proof fn law_coding_conflicts_are_proved(
    store: BlockstoreView,
    shred: ShredView,
    is_repaired: bool,
    now: u64,
    metrics: BlockstoreInsertionMetrics,
    after: LedgerView,
)
    requires
        shred.common_header.shred_type == ShredType::Code,
        ledger_sound(store.ledger),
        ledger_result(
            store,
            after,
            seq![shred],
            seq![is_repaired],
            false,
            now,
            metrics,
            None,
        ),
    ensures
        ({
            let ledger = store.ledger;
            let slot = shred.common_header.slot;
            let meta = set_for(ledger, shred);
            let is_checked = !coding_is_there(ledger, shred) && has_good_coding_headers(shred)
                && slot > store.last_root;
            let has_conflict = exists|i: u64| #[trigger] conflicts_at(ledger, meta, shred, i);
            if is_checked && !fits_its_set(ledger, shred) && has_conflict
                && !ledger.duplicate_slots.contains_key(slot) {
                &&& after.duplicate_slots.contains_key(slot)
                &&& after.duplicate_slots[slot].shred2 == shred.payload
                &&& exists|i: u64| #[trigger]
                    conflicts_at(ledger, meta, shred, i) && after.duplicate_slots[slot].shred1
                        == parse_shred(ledger.code_shreds[SlotIndex { slot, index: i }])->0.payload
                &&& after.duplicate_slots.remove(slot) == ledger.duplicate_slots
            } else {
                after.duplicate_slots == ledger.duplicate_slots
            }
        }),
{
    lemma_one_shred(store, shred, is_repaired, false, now, metrics);
    let ledger = store.ledger;
    let slot = shred.common_header.slot;
    let meta = set_for(ledger, shred);
    let p0 = Progress { store, state: batch_start(metrics, 1) };
    let p = batch_step(p0, shred, is_repaired, false, now, 0);
    let is_checked = !coding_is_there(ledger, shred) && has_good_coding_headers(shred) && slot
        > store.last_root;
    if is_checked && !fits_its_set(ledger, shred) {
        assert(ledger.erasure_meta.contains_key(set_key(shred)));
        assert(meta.in_bounds());
        let from = coding_from(meta);
        let to = coding_from(meta) + meta.config.num_coding;
        lemma_first_conflict(ledger, shred, from, to);
        assert(p0.state.code_shreds =~= Map::empty());
        let found = first_conflict(ledger, Map::empty(), shred, from, to);
        match found {
            Some(bytes) => {
                let i = choose|i: u64| from <= i < to && #[trigger]
                    is_conflict(ledger, shred, i, bytes);
                assert(conflicts_at(ledger, meta, shred, i));
                let proof_of = DuplicateSlotProofView { shred1: bytes, shred2: shred.payload };
                lemma_apply_one(ledger, WriteOpView::PutDuplicateSlot(slot, proof_of));
                if !ledger.duplicate_slots.contains_key(slot) {
                    assert(ledger.duplicate_slots.insert(slot, proof_of).remove(slot)
                        =~= ledger.duplicate_slots);
                    assert(after.duplicate_slots[slot] == proof_of);
                }
            },
            None => {
                assert forall|i: u64| !#[trigger] conflicts_at(ledger, meta, shred, i) by {
                    let k = SlotIndex { slot, index: i };
                    let bytes = parse_shred(ledger.code_shreds[k])->0.payload;
                    if from <= i < to {
                        assert(!is_conflict(ledger, shred, i, bytes));
                    }
                }
            },
        }
    }
}

/// Only the slots of the shreds of a batch are worked on.
proof fn lemma_batch_finite(
    p0: Progress,
    shreds: Seq<ShredView>,
    is_repaired: Seq<bool>,
    is_trusted: bool,
    now: u64,
)
    requires
        p0.state.slot_metas.dom().finite(),
    ensures
        batch_steps(p0, shreds, is_repaired, is_trusted, now).state.slot_metas.dom().finite(),
    decreases shreds.len(),
{
    if shreds.len() > 0 {
        lemma_batch_finite(p0, shreds.drop_last(), is_repaired, is_trusted, now);
    }
}

proof fn lemma_recovered_finite(
    p0: Progress,
    recovered: Seq<RecoveredShredView>,
    is_trusted: bool,
    now: u64,
)
    requires
        p0.state.slot_metas.dom().finite(),
    ensures
        recovered_steps(p0, recovered, is_trusted, now).state.slot_metas.dom().finite(),
    decreases recovered.len(),
{
    if recovered.len() > 0 {
        lemma_recovered_finite(p0, recovered.drop_last(), is_trusted, now);
    }
}

proof fn lemma_completed_slots(working: Map<u64, MetaEntryView>, keys: Seq<u64>)
    ensures
        forall|s: u64| #[trigger]
            completed_slots(working, keys).contains(s) <==> keys.contains(s)
                && working[s].new_slot_meta.last_index is Some
                && working[s].new_slot_meta.consumed == working[s].new_slot_meta.last_index->0 + 1
                && (working[s].old_slot_meta is None || working[s].old_slot_meta->0.consumed
                != working[s].new_slot_meta.consumed),
    decreases keys.len(),
{
    if keys.len() > 0 {
        let before = keys.drop_last();
        lemma_completed_slots(working, before);
        let earlier = completed_slots(working, before);
        let all = completed_slots(working, keys);
        assert forall|s: u64| #[trigger] all.contains(s) <==> keys.contains(s)
            && working[s].new_slot_meta.last_index is Some && working[s].new_slot_meta.consumed
            == working[s].new_slot_meta.last_index->0 + 1 && (working[s].old_slot_meta is None
            || working[s].old_slot_meta->0.consumed != working[s].new_slot_meta.consumed) by {
            assert(keys.contains(s) <==> before.contains(s) || s == keys.last()) by {
                if keys.contains(s) {
                    let x = choose|x: int| 0 <= x < keys.len() && keys[x] == s;
                    if x < before.len() {
                        assert(before[x] == s);
                    }
                }
                if before.contains(s) {
                    let x = choose|x: int| 0 <= x < before.len() && before[x] == s;
                    assert(keys[x] == s);
                }
                assert(keys[keys.len() - 1] == keys.last());
            }
            if all.len() > earlier.len() {
                assert(all[earlier.len() as int] == keys.last());
            }
            if earlier.contains(s) {
                let x = choose|x: int| 0 <= x < earlier.len() && earlier[x] == s;
                assert(all[x] == s);
            }
            if all.contains(s) {
                let x = choose|x: int| 0 <= x < all.len() && all[x] == s;
                if x < earlier.len() {
                    assert(earlier[x] == s);
                }
            }
        }
    }
}

/// The number of consecutive shreds of a slot is another one than before.
pub open spec fn moved(before: LedgerView, after: LedgerView, s: Slot) -> bool {
    after.meta.contains_key(s) && if before.meta.contains_key(s) {
        before.meta[s].consumed != after.meta[s].consumed
    } else {
        after.meta[s].consumed != 0
    }
}

/// Every shred of a slot up to its last is there.
pub open spec fn all_there(ledger: LedgerView, s: Slot) -> bool {
    ledger.meta.contains_key(s) && ledger.meta[s].last_index is Some && ledger.meta[s].consumed
        == ledger.meta[s].last_index->0 + 1
}

/// The slots that are told to be newly complete, where someone wants to know, are exactly those
/// of which all shreds are there after the insertion, and of which there were not as many
/// consecutive shreds before it. New shreds are signalled exactly where the consecutive shreds of
/// a slot that is connected to slot 0 have become others.
pub proof fn law_who_is_told_of_an_insertion(
    store: BlockstoreView,
    shreds: Seq<ShredView>,
    is_repaired: Seq<bool>,
    is_trusted: bool,
    now: u64,
    metrics: BlockstoreInsertionMetrics,
    recovered: Option<Seq<RecoveredShredView>>,
    has_completed_slots_senders: bool,
    after: LedgerView,
)
    requires
        ledger_sound(store.ledger),
        batch_allowed(store, shreds, is_repaired, is_trusted, now, metrics),
        ledger_result(store, after, shreds, is_repaired, is_trusted, now, metrics, recovered),
    ensures
        ({
            let outcome = batch_inserted(
                store,
                shreds,
                is_repaired,
                is_trusted,
                now,
                metrics,
                recovered,
                has_completed_slots_senders,
            ).1;
            &&& forall|s: Slot| #[trigger]
                outcome.newly_completed_slots.contains(s) <==> has_completed_slots_senders
                    && all_there(after, s) && moved(store.ledger, after, s)
            &&& outcome.should_signal <==> exists|s: Slot| #[trigger]
                moved(store.ledger, after, s) && after.meta[s].is_connected
        }),
{
    let start = batch_start(metrics, shreds.len() as usize);
    let p0 = Progress { store, state: start };
    lemma_start_sound(store.ledger, start.metrics);
    lemma_start_tracks(store.ledger, start);
    assert(progress_kept(p0, false, false, false));
    lemma_batch_steps_kept(p0, shreds, is_repaired, is_trusted, now, false, false, false);
    lemma_batch_steps_sound(p0, shreds, is_repaired, is_trusted, now);
    lemma_batch_finite(p0, shreds, is_repaired, is_trusted, now);
    let p1 = batch_steps(p0, shreds, is_repaired, is_trusted, now);
    let p = all_received(store, shreds, is_repaired, is_trusted, now, metrics, recovered);
    if recovered is Some {
        let q = Progress {
            state: InsertionView {
                metrics: BlockstoreInsertionMetrics {
                    num_recovered: more(
                        p1.state.metrics.num_recovered,
                        recovered->0.len() as usize,
                    ),
                    ..p1.state.metrics
                },
                ..p1.state
            },
            ..p1
        };
        assert(progress_kept(q, false, false, false));
        lemma_recovered_steps_kept(q, recovered->0, is_trusted, now, false, false, false);
        lemma_recovered_steps_sound(q, recovered->0, is_trusted, now);
        lemma_recovered_finite(q, recovered->0, is_trusted, now);
    }
    let ledger = p.store.ledger;
    let kept = inserted_into(p.state.slot_metas);
    assert(kept.dom().subset_of(p.state.slot_metas.dom()));
    vstd::set_lib::lemma_len_subset(kept.dom(), p.state.slot_metas.dom());
    lemma_finite_orders(kept);
    lemma_chained_batch_frames(ledger, p.state.slot_metas);
    let a = ChainView { working: kept, chained: Map::<u64, SlotMetaView>::empty() };
    let c = chained_batch(ledger, p.state.slot_metas);
    let working = c.working;
    assert(working.dom() == kept.dom());
    lemma_finite_orders(working);
    let keys = ordered_keys(working);
    lemma_completed_slots(working, keys);
    assert(ledger.meta == store.ledger.meta);
    assert forall|s: Slot| #[trigger] working.contains_key(s) implies after.meta.contains_key(s)
        && after.meta[s] == working[s].new_slot_meta && working[s].old_slot_meta
        == if ledger.meta.contains_key(s) {
        Some(ledger.meta[s])
    } else {
        None
    } by {
        assert(working.dom().contains(s));
        assert(kept.dom().contains(s));
        assert(a.working.contains_key(s));
        assert(p.state.slot_metas.contains_key(s));
    }
    assert forall|s: Slot| after.meta.contains_key(s) && !working.contains_key(s) implies !(
    #[trigger] moved(store.ledger, after, s)) by {
        assert(!kept.dom().contains(s)) by {
            if kept.dom().contains(s) {
                assert(working.dom().contains(s));
            }
        }
        assert(frame(effective_meta(ledger, c, s)) == frame(effective_meta(ledger, a, s)));
        assert(after.meta[s] == effective_meta(ledger, c, s));
    }
    let outcome = batch_outcome(ledger, p.state, has_completed_slots_senders);
    assert forall|s: Slot| #[trigger] outcome.newly_completed_slots.contains(s) <==>
        has_completed_slots_senders && all_there(after, s) && moved(store.ledger, after, s) by {
        if has_completed_slots_senders {
            assert(keys.contains(s) <==> working.contains_key(s));
            if working.contains_key(s) {
                assert(after.meta[s] == working[s].new_slot_meta);
            }
        }
    }
    if outcome.should_signal {
        let s = choose|s: u64| #[trigger]
            working.contains_key(s) && meta_changed(working[s]) && has_updates(
                working[s].new_slot_meta,
                working[s].old_slot_meta,
            );
        assert(working.contains_key(s));
        assert(moved(store.ledger, after, s) && after.meta[s].is_connected);
    }
    if exists|s: Slot| #[trigger] moved(store.ledger, after, s) && after.meta[s].is_connected {
        let s = choose|s: Slot| #[trigger]
            moved(store.ledger, after, s) && after.meta[s].is_connected;
        assert(working.contains_key(s));
        assert(meta_changed(working[s]) && has_updates(
            working[s].new_slot_meta,
            working[s].old_slot_meta,
        ));
    }
}

/// A recovered shred that is to be sent on is one whose signature was found good.
pub proof fn law_sent_on_shreds_are_verified(
    store: BlockstoreView,
    shreds: Seq<ShredView>,
    is_repaired: Seq<bool>,
    is_trusted: bool,
    now: u64,
    metrics: BlockstoreInsertionMetrics,
    recovered: Option<Seq<RecoveredShredView>>,
    has_completed_slots_senders: bool,
    shred: ShredView,
)
    requires
        batch_inserted(
            store,
            shreds,
            is_repaired,
            is_trusted,
            now,
            metrics,
            recovered,
            has_completed_slots_senders,
        ).1.retransmit.contains(shred),
    ensures
        recovered is Some && recovered->0.contains(
            RecoveredShredView { shred, verified: Some(true) },
        ),
{
    let p0 = Progress { store, state: batch_start(metrics, shreds.len() as usize) };
    lemma_none_sent_on(p0, shreds, is_repaired, is_trusted, now);
    if recovered is Some {
        let p1 = batch_steps(p0, shreds, is_repaired, is_trusted, now);
        let q = Progress {
            state: InsertionView {
                metrics: BlockstoreInsertionMetrics {
                    num_recovered: more(
                        p1.state.metrics.num_recovered,
                        recovered->0.len() as usize,
                    ),
                    ..p1.state.metrics
                },
                ..p1.state
            },
            ..p1
        };
        lemma_sent_on(q, recovered->0, is_trusted, now, shred);
    }
}

proof fn lemma_none_sent_on(
    p0: Progress,
    shreds: Seq<ShredView>,
    is_repaired: Seq<bool>,
    is_trusted: bool,
    now: u64,
)
    requires
        p0.state.retransmit.len() == 0,
    ensures
        batch_steps(p0, shreds, is_repaired, is_trusted, now).state.retransmit.len() == 0,
    decreases shreds.len(),
{
    if shreds.len() > 0 {
        lemma_none_sent_on(p0, shreds.drop_last(), is_repaired, is_trusted, now);
    }
}

proof fn lemma_sent_on(
    p0: Progress,
    recovered: Seq<RecoveredShredView>,
    is_trusted: bool,
    now: u64,
    shred: ShredView,
)
    requires
        p0.state.retransmit.len() == 0,
        recovered_steps(p0, recovered, is_trusted, now).state.retransmit.contains(shred),
    ensures
        recovered.contains(RecoveredShredView { shred, verified: Some(true) }),
    decreases recovered.len(),
{
    if recovered.len() > 0 {
        let before = recovered.drop_last();
        let p = recovered_steps(p0, before, is_trusted, now);
        let q = recovered_steps(p0, recovered, is_trusted, now);
        let sent = p.state.retransmit;
        let all = q.state.retransmit;
        let x = choose|x: int| 0 <= x < all.len() && all[x] == shred;
        if x < sent.len() {
            assert(sent[x] == shred);
            lemma_sent_on(p0, before, is_trusted, now, shred);
            let y = choose|y: int|
                0 <= y < before.len() && before[y] == (RecoveredShredView {
                    shred,
                    verified: Some(true),
                });
            assert(recovered[y] == before[y]);
        } else {
            assert(recovered[recovered.len() - 1] == recovered.last());
        }
    }
}

/// Within a batch a data shred is held against what the batch has left so far of its slot. One that
/// is there by then is handed back. One that shows two versions of the slot is kept as a proof with
/// the shred that it is held against, which may have come with the batch. One that belongs into the
/// slot is inserted.
pub proof fn law_data_shreds_see_their_batch(
    p: Progress,
    shred: ShredView,
    is_repaired: bool,
    now: u64,
    i: usize,
)
    requires
        shred.common_header.shred_type == ShredType::Data,
        named_parent(shred) is Some,
        p.state.slot_metas.contains_key(shred.common_header.slot),
        p.state.indexes.contains_key(shred.common_header.slot),
    ensures
        ({
            let slot = shred.common_header.slot;
            let index = shred.common_header.index;
            let meta = p.state.slot_metas[slot].new_slot_meta;
            let is_listed = index < meta.consumed || p.state.indexes[slot].index.data.contains(
                index as u64,
            );
            let is_past = meta.last_index is Some && index >= meta.last_index->0;
            let is_early = marked_last(shred) && index < meta.received;
            let other = SlotIndex {
                slot,
                index: if is_past {
                    meta.last_index->0
                } else {
                    (meta.received - 1) as u64
                },
            };
            let step = batch_step(p, shred, is_repaired, false, now, i);
            let proofs = step.store.ledger.duplicate_slots;
            &&& is_listed ==> step.state.duplicates == p.state.duplicates.push(shred) && step.store
                == p.store && step.state.inserted_indices == p.state.inserted_indices
            &&& !is_listed && has_good_size(shred) && (is_past || is_early)
                && !p.store.ledger.duplicate_slots.contains_key(slot) ==> {
                &&& proofs.contains_key(slot)
                &&& proofs[slot].shred2 == shred.payload
                &&& proofs[slot].shred1 == if p.state.data_shreds.contains_key(other) {
                    p.state.data_shreds[other].payload
                } else {
                    filled(p.store.ledger.data_shreds[other])
                }
                &&& step.state.inserted_indices == p.state.inserted_indices
                &&& step.state.data_shreds == p.state.data_shreds
            }
            &&& !is_listed && has_good_size(shred) && !is_past && !is_early && meta.parent_slot is Some
                && may_build_on(slot, meta.parent_slot->0, p.store.last_root) ==> {
                &&& step.state.inserted_indices == p.state.inserted_indices.push(i)
                &&& step.state.data_shreds == p.state.data_shreds.insert(home_of(shred), shred)
                &&& step.state.indexes[slot].index.data
                    == p.state.indexes[slot].index.data.insert(index as u64)
                &&& step.state.duplicates == p.state.duplicates
                &&& proofs == p.store.ledger.duplicate_slots
            }
        }),
{
    let slot = shred.common_header.slot;
    assert forall|a: Seq<u8>, b: Seq<u8>|
        !p.store.ledger.duplicate_slots.contains_key(slot) implies (
    #[trigger] p.store.with_duplicate(slot, a, b)).ledger.duplicate_slots
        == p.store.ledger.duplicate_slots.insert(
        slot,
        DuplicateSlotProofView { shred1: a, shred2: b },
    ) by {
        lemma_apply_one(
            p.store.ledger,
            WriteOpView::PutDuplicateSlot(slot, DuplicateSlotProofView { shred1: a, shred2: b }),
        );
    }
}

/// The coding shred at an index, in the ledger or else in a batch, is of a set of another size than
/// a shred, and its bytes are given.
pub open spec fn batch_conflict(
    ledger: LedgerView,
    code_shreds: Map<SlotIndex, ShredView>,
    shred: ShredView,
    i: u64,
    bytes: Seq<u8>,
) -> bool {
    let k = SlotIndex { slot: shred.common_header.slot, index: i };
    if ledger.code_shreds.contains_key(k) {
        let other = parse_shred(ledger.code_shreds[k])->0;
        other_size(other, shred) && bytes == other.payload
    } else {
        code_shreds.contains_key(k) && other_size(code_shreds[k], shred) && bytes
            == code_shreds[k].payload
    }
}

proof fn lemma_batch_conflict(
    ledger: LedgerView,
    code_shreds: Map<SlotIndex, ShredView>,
    shred: ShredView,
    from: int,
    to: int,
)
    requires
        0 <= from,
        to <= 0x1_0000_0000,
    ensures
        match first_conflict(ledger, code_shreds, shred, from, to) {
            Some(bytes) => exists|i: u64| from <= i < to && #[trigger]
                batch_conflict(ledger, code_shreds, shred, i, bytes),
            None => forall|i: u64, bytes: Seq<u8>|
                from <= i < to ==> !#[trigger] batch_conflict(
                    ledger,
                    code_shreds,
                    shred,
                    i,
                    bytes,
                ),
        },
    decreases to - from,
{
    if from < to {
        lemma_batch_conflict(ledger, code_shreds, shred, from + 1, to);
        let at = conflict_at(ledger, code_shreds, shred, from as u64);
        if at is Some {
            assert(batch_conflict(ledger, code_shreds, shred, from as u64, at->0));
        }
    }
}

/// One of the coding shreds of an erasure set, in the ledger or else in the batch, is of another
/// size than a shred, and its bytes are given.
pub open spec fn conflicts_in_batch(
    p: Progress,
    shred: ShredView,
    meta: ErasureMeta,
    bytes: Seq<u8>,
) -> bool {
    exists|x: u64|
        coding_from(meta) <= x < coding_from(meta) + meta.config.num_coding && #[trigger]
        batch_conflict(p.store.ledger, p.state.code_shreds, shred, x, bytes)
}

/// Within a batch a coding shred is held against what the batch has left so far. One that is there
/// by then is handed back. One that does not fit its erasure set, as the batch knows it, is kept as a
/// proof of two versions with a coding shred of the set that is of another size, in the ledger or
/// in the batch. One that fits is inserted.
pub proof fn law_coding_shreds_see_their_batch(
    p: Progress,
    shred: ShredView,
    is_repaired: bool,
    now: u64,
    i: usize,
)
    requires
        shred.common_header.shred_type == ShredType::Code,
        has_good_coding_headers(shred),
        shred.common_header.slot > p.store.last_root,
        p.state.indexes.contains_key(shred.common_header.slot),
        p.state.erasure_metas.contains_key(set_key(shred)),
        p.state.erasure_metas[set_key(shred)].in_bounds(),
    ensures
        ({
            let slot = shred.common_header.slot;
            let meta = p.state.erasure_metas[set_key(shred)];
            let own = own_set(shred);
            let is_listed = p.state.indexes[slot].index.coding.contains(
                shred.common_header.index as u64,
            );
            let fits = own.set_index == meta.set_index && own.config == meta.config;
            let has_conflict = exists|bytes: Seq<u8>| #[trigger]
                conflicts_in_batch(p, shred, meta, bytes);
            let step = batch_step(p, shred, is_repaired, false, now, i);
            let proofs = step.store.ledger.duplicate_slots;
            &&& is_listed ==> step.state.duplicates == p.state.duplicates.push(shred)
                && step.store == p.store
            &&& !is_listed && fits ==> {
                &&& step.state.indexes[slot].index.coding
                    == p.state.indexes[slot].index.coding.insert(shred.common_header.index as u64)
                &&& step.state.write_batch == p.state.write_batch.push(
                    WriteOpView::PutCodeShred(home_of(shred), shred.payload),
                )
                &&& proofs == p.store.ledger.duplicate_slots
            }
            &&& !is_listed && !fits && has_conflict && !p.store.ledger.duplicate_slots.contains_key(
                slot,
            ) ==> {
                &&& proofs.contains_key(slot)
                &&& proofs[slot].shred2 == shred.payload
                &&& conflicts_in_batch(p, shred, meta, proofs[slot].shred1)
                &&& step.state.write_batch == p.state.write_batch
            }
            &&& !is_listed && !fits && !has_conflict ==> proofs == p.store.ledger.duplicate_slots
        }),
{
    let slot = shred.common_header.slot;
    let meta = p.state.erasure_metas[set_key(shred)];
    lemma_batch_conflict(
        p.store.ledger,
        p.state.code_shreds,
        shred,
        coding_from(meta),
        coding_from(meta) + meta.config.num_coding,
    );
    let found = first_conflict(
        p.store.ledger,
        p.state.code_shreds,
        shred,
        coding_from(meta),
        coding_from(meta) + meta.config.num_coding,
    );
    if found is Some {
        assert(conflicts_in_batch(p, shred, meta, found->0));
    } else {
        assert forall|bytes: Seq<u8>| !#[trigger] conflicts_in_batch(p, shred, meta, bytes) by {
        }
    }
    assert forall|a: Seq<u8>, b: Seq<u8>|
        !p.store.ledger.duplicate_slots.contains_key(slot) implies (
    #[trigger] p.store.with_duplicate(slot, a, b)).ledger.duplicate_slots
        == p.store.ledger.duplicate_slots.insert(
        slot,
        DuplicateSlotProofView { shred1: a, shred2: b },
    ) by {
        lemma_apply_one(
            p.store.ledger,
            WriteOpView::PutDuplicateSlot(slot, DuplicateSlotProofView { shred1: a, shred2: b }),
        );
    }
}

} // verus!
