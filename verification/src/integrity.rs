//! What the insertion of a batch leaves in the ledger, and what it keeps true of it.

use vstd::prelude::*;
use crate::batch::{
    batch_step, batch_writes, erasure_writes, index_writes, ledger_sound, lemma_code_step_sound,
    lemma_data_step_sound, recovered_step, same_but_duplicates, state_sound, step_allowed, taken_up,
    Progress, RecoveredShredView,
};
use crate::blockstore::BlockstoreView;
use crate::chaining::{
    chained_batch, chained_slot, chained_slots, changed_writes, effective_meta, gets_parent,
    inserted_into, linked, meta_changed, meta_writes, orphan_writes, orphan_writes_of, propagated,
    ChainView, MetaEntryView,
};
use crate::coding::{code_allowed, code_step};
use crate::column::{increasing, ordered_keys, orders, ColumnKey, SlotIndex};
use crate::insertion::{
    data_allowed, data_step, index_entry, shred_key, IndexEntryView, InsertionView, ShredSource,
};
use crate::ledger::{lemma_apply_all_concat, LedgerView, WriteOpView};
use crate::meta::{ErasureMeta, IndexView, SlotMetaView};
use crate::shred::ShredView;
use crate::types::Slot;

verus! {

/// `a` with the entries of `b` put over it.
pub open spec fn overlay<K, W>(a: Map<K, W>, b: Map<K, W>) -> Map<K, W> {
    Map::new(
        |k: K| a.contains_key(k) || b.contains_key(k),
        |k: K|
            if b.contains_key(k) {
                b[k]
            } else {
                a[k]
            },
    )
}

/// What is stored of the data shreds of a batch.
pub open spec fn stored_shreds(data_shreds: Map<SlotIndex, ShredView>) -> Map<SlotIndex, Seq<u8>> {
    Map::new(|k: SlotIndex| data_shreds.contains_key(k), |k: SlotIndex| data_shreds[k].stored())
}

/// The indexes that a shred was added to.
pub open spec fn touched_indexes(indexes: Map<u64, IndexEntryView>) -> Map<u64, IndexView> {
    Map::new(
        |k: u64| indexes.contains_key(k) && indexes[k].did_insert_occur,
        |k: u64| indexes[k].index,
    )
}

/// The metadata at hand after chaining.
pub open spec fn metas_at_hand(c: ChainView) -> Map<u64, SlotMetaView> {
    Map::new(|k: u64| c.has(k), |k: u64| c.at(k))
}

/// What a batch leaves in the ledger: its data shreds are stored, and its coding shreds are
/// there; the metadata is that after chaining; the indexes and the erasure sets are those of
/// the batch; the orphans are those that chaining leaves; the slots that the batch found to be
/// dead are marked so; and nothing else changes.
pub open spec fn batch_result(
    before: LedgerView,
    state: InsertionView,
    after: LedgerView,
) -> bool {
    &&& after.data_shreds == overlay(before.data_shreds, stored_shreds(state.data_shreds))
    &&& forall|k: SlotIndex| #[trigger]
        after.code_shreds.contains_key(k) <==> before.code_shreds.contains_key(k)
            || state.code_shreds.contains_key(k)
    &&& after.meta == overlay(
        before.meta,
        metas_at_hand(chained_batch(before, state.slot_metas)),
    )
    &&& after.index == overlay(before.index, touched_indexes(state.indexes))
    &&& after.erasure_meta == overlay(before.erasure_meta, state.erasure_metas)
    &&& after.orphans == before.apply_all(batch_orphan_writes(before, state)).orphans
    &&& after.dead_slots == before.apply_all(state.write_batch).dead_slots
    &&& after == LedgerView {
        data_shreds: after.data_shreds,
        code_shreds: after.code_shreds,
        meta: after.meta,
        index: after.index,
        erasure_meta: after.erasure_meta,
        orphans: after.orphans,
        dead_slots: after.dead_slots,
        ..before
    }
}

/// The writes to the orphans that a batch makes.
pub open spec fn batch_orphan_writes(ledger: LedgerView, state: InsertionView) -> Seq<WriteOpView> {
    let kept = inserted_into(state.slot_metas);
    orphan_writes_of(
        ledger,
        ChainView { working: kept, chained: Map::empty() },
        ordered_keys(kept),
    )
}

/// The write is one of those that a shred makes.
pub open spec fn writes_shred(op: WriteOpView) -> bool {
    match op {
        WriteOpView::PutDeadSlot(_, _) => true,
        WriteOpView::PutDataShred(_, _) => true,
        WriteOpView::PutCodeShred(_, _) => true,
        _ => false,
    }
}

/// The writes gathered so far are those of the shreds of the batch, and the working sets are
/// copies of what is in the ledger, changed by those shreds.
pub open spec fn tracks(ledger: LedgerView, state: InsertionView) -> bool {
    let applied = ledger.apply_all(state.write_batch);
    &&& forall|i: int| 0 <= i < state.write_batch.len() ==> writes_shred(
        #[trigger] state.write_batch[i],
    )
    &&& applied.data_shreds == overlay(ledger.data_shreds, stored_shreds(state.data_shreds))
    &&& forall|k: SlotIndex| #[trigger]
        applied.code_shreds.contains_key(k) <==> ledger.code_shreds.contains_key(k)
            || state.code_shreds.contains_key(k)
    &&& applied == LedgerView {
        data_shreds: applied.data_shreds,
        code_shreds: applied.code_shreds,
        dead_slots: applied.dead_slots,
        ..ledger
    }
    &&& forall|k: u64| #[trigger]
        state.slot_metas.contains_key(k) ==> state.slot_metas[k].old_slot_meta
            == if ledger.meta.contains_key(k) {
            Some(ledger.meta[k])
        } else {
            None
        }
    &&& forall|k: u64| #[trigger]
        state.indexes.contains_key(k) && !state.indexes[k].did_insert_occur ==> state.indexes[k]
            == index_entry(ledger, Map::empty(), k)
    &&& forall|k: SlotIndex| #[trigger]
        state.data_shreds.contains_key(k) ==> state.slot_metas.contains_key(k.slot)
            && state.slot_metas[k.slot].did_insert_occur && state.indexes.contains_key(k.slot)
            && state.indexes[k.slot].did_insert_occur
    &&& forall|k: SlotIndex| #[trigger]
        state.code_shreds.contains_key(k) ==> state.indexes.contains_key(k.slot)
            && state.indexes[k.slot].did_insert_occur
}

/// Writes do not mix the proofs of two versions with anything else.
pub proof fn lemma_apply_all_same_but_duplicates(a: LedgerView, b: LedgerView, ops: Seq<WriteOpView>)
    requires
        same_but_duplicates(a, b),
    ensures
        same_but_duplicates(a.apply_all(ops), b.apply_all(ops)),
    decreases ops.len(),
{
    if ops.len() > 0 {
        lemma_apply_all_same_but_duplicates(a, b, ops.drop_last());
    }
}

/// The orphans after some writes depend on the orphans before alone.
proof fn lemma_apply_all_orphans(a: LedgerView, b: LedgerView, ops: Seq<WriteOpView>)
    requires
        a.orphans == b.orphans,
    ensures
        a.apply_all(ops).orphans == b.apply_all(ops).orphans,
    decreases ops.len(),
{
    if ops.len() > 0 {
        lemma_apply_all_orphans(a, b, ops.drop_last());
    }
}

/// The writes that shreds make leave everything else as it is.
proof fn lemma_shred_writes_apply(ledger: LedgerView, ops: Seq<WriteOpView>)
    requires
        forall|i: int| 0 <= i < ops.len() ==> writes_shred(#[trigger] ops[i]),
    ensures
        ({
            let applied = ledger.apply_all(ops);
            applied == LedgerView {
                data_shreds: applied.data_shreds,
                code_shreds: applied.code_shreds,
                dead_slots: applied.dead_slots,
                ..ledger
            }
        }),
    decreases ops.len(),
{
    if ops.len() > 0 {
        let before = ops.drop_last();
        assert forall|i: int| 0 <= i < before.len() implies writes_shred(#[trigger] before[i]) by {
            assert(before[i] == ops[i]);
        }
        lemma_shred_writes_apply(ledger, before);
        assert(writes_shred(ops[ops.len() - 1]));
    }
}

proof fn lemma_apply_push(ledger: LedgerView, ops: Seq<WriteOpView>, op: WriteOpView)
    ensures
        ledger.apply_all(ops.push(op)) == ledger.apply_all(ops).apply(op),
{
    assert(ops.push(op).drop_last() =~= ops);
}

/// A new state tracks the ledger.
pub proof fn lemma_start_tracks(ledger: LedgerView, state: InsertionView)
    requires
        state == InsertionView::start(state.metrics),
    ensures
        tracks(ledger, state),
{
    assert(ledger.apply_all(Seq::<WriteOpView>::empty()) == ledger);
    assert(overlay(ledger.data_shreds, stored_shreds(state.data_shreds)) =~= ledger.data_shreds);
}

pub proof fn lemma_tracks_other_ledger(a: LedgerView, b: LedgerView, state: InsertionView)
    requires
        same_but_duplicates(a, b),
        tracks(a, state),
    ensures
        tracks(b, state),
{
    lemma_apply_all_same_but_duplicates(a, b, state.write_batch);
    lemma_shred_writes_apply(b, state.write_batch);
    assert forall|k: u64| #[trigger]
        state.indexes.contains_key(k) && !state.indexes[k].did_insert_occur implies state.indexes[k]
        == index_entry(b, Map::empty(), k) by {
        assert(state.indexes[k] == index_entry(a, Map::empty(), k));
    }
}

/// A data shred keeps the state tracking the ledger.
proof fn lemma_data_step_tracks(
    store: BlockstoreView,
    state: InsertionView,
    shred: ShredView,
    is_trusted: bool,
    source: ShredSource,
    now: u64,
)
    requires
        data_allowed(store, state, shred, is_trusted, source, now),
        ledger_sound(store.ledger),
        state_sound(store.ledger, state),
        tracks(store.ledger, state),
    ensures
        ({
            let step = data_step(store, state, shred, is_trusted, source, now);
            tracks(step.store.ledger, step.state)
        }),
{
    let step = data_step(store, state, shred, is_trusted, source, now);
    lemma_data_step_sound(store, state, shred, is_trusted, source, now);
    lemma_tracks_other_ledger(store.ledger, step.store.ledger, state);
    let l = step.store.ledger;
    let st = step.state;
    let slot = shred.slot();
    let ops = state.write_batch;
    let dead = WriteOpView::PutDeadSlot(slot, true);
    let put = WriteOpView::PutDataShred(shred_key(shred), shred.stored());
    lemma_apply_push(l, ops, dead);
    lemma_apply_push(l, ops, put);
    lemma_apply_push(l, ops.push(dead), put);
    assert(st.write_batch == ops || st.write_batch == ops.push(dead) || st.write_batch == ops.push(
        put,
    ) || st.write_batch == ops.push(dead).push(put));
    assert(overlay(
        l.data_shreds,
        stored_shreds(state.data_shreds.insert(shred_key(shred), shred)),
    ) =~= overlay(l.data_shreds, stored_shreds(state.data_shreds)).insert(
        shred_key(shred),
        shred.stored(),
    ));
    assert forall|k: u64| #[trigger] st.slot_metas.contains_key(k) implies
        st.slot_metas[k].old_slot_meta == (if l.meta.contains_key(k) {
        Some(l.meta[k])
    } else {
        None
    }) by {
        if k != slot {
            assert(state.slot_metas.contains_key(k));
        }
    }
    assert forall|k: u64| #[trigger]
        st.indexes.contains_key(k) && !st.indexes[k].did_insert_occur implies st.indexes[k]
        == index_entry(l, Map::empty(), k) by {
        if state.indexes.contains_key(k) {
            if k != slot {
                assert(st.indexes[k] == state.indexes[k]);
            } else {
                assert(index_entry(store.ledger, state.indexes, slot) == state.indexes[k]);
            }
        } else {
            assert(k == slot);
            assert(index_entry(store.ledger, state.indexes, slot) == index_entry(
                l,
                Map::empty(),
                k,
            ));
        }
    }
    assert forall|k: SlotIndex| #[trigger] st.data_shreds.contains_key(k) implies
        st.slot_metas.contains_key(k.slot) && st.slot_metas[k.slot].did_insert_occur
        && st.indexes.contains_key(k.slot) && st.indexes[k.slot].did_insert_occur by {
        if state.data_shreds.contains_key(k) {
            assert(state.slot_metas[k.slot].did_insert_occur);
        }
    }
    assert forall|k: SlotIndex| #[trigger] st.code_shreds.contains_key(k) implies
        st.indexes.contains_key(k.slot) && st.indexes[k.slot].did_insert_occur by {
        assert(state.code_shreds.contains_key(k));
    }
}

/// A coding shred keeps the state tracking the ledger.
proof fn lemma_code_step_tracks(
    store: BlockstoreView,
    state: InsertionView,
    shred: ShredView,
    is_trusted: bool,
    is_repaired: bool,
)
    requires
        shred.is_code(),
        code_allowed(store, state, shred, is_trusted),
        ledger_sound(store.ledger),
        state_sound(store.ledger, state),
        tracks(store.ledger, state),
    ensures
        ({
            let step = code_step(store, state, shred, is_trusted, is_repaired);
            tracks(step.store.ledger, step.state)
        }),
{
    let step = code_step(store, state, shred, is_trusted, is_repaired);
    lemma_code_step_sound(store, state, shred, is_trusted, is_repaired);
    lemma_tracks_other_ledger(store.ledger, step.store.ledger, state);
    let l = step.store.ledger;
    let st = step.state;
    let slot = shred.slot();
    let ops = state.write_batch;
    let put = WriteOpView::PutCodeShred(shred_key(shred), shred.payload);
    lemma_apply_push(l, ops, put);
    assert(st.write_batch == ops || st.write_batch == ops.push(put));
    assert forall|k: u64| #[trigger]
        st.indexes.contains_key(k) && !st.indexes[k].did_insert_occur implies st.indexes[k]
        == index_entry(l, Map::empty(), k) by {
        if state.indexes.contains_key(k) {
            if k != slot {
                assert(st.indexes[k] == state.indexes[k]);
            } else {
                assert(index_entry(store.ledger, state.indexes, slot) == state.indexes[k]);
            }
        } else {
            assert(k == slot);
            assert(index_entry(store.ledger, state.indexes, slot) == index_entry(
                l,
                Map::empty(),
                k,
            ));
        }
    }
    assert forall|k: SlotIndex| #[trigger] st.data_shreds.contains_key(k) implies
        st.slot_metas.contains_key(k.slot) && st.slot_metas[k.slot].did_insert_occur
        && st.indexes.contains_key(k.slot) && st.indexes[k.slot].did_insert_occur by {
        assert(state.data_shreds.contains_key(k));
    }
    assert forall|k: SlotIndex| #[trigger] st.code_shreds.contains_key(k) implies
        st.indexes.contains_key(k.slot) && st.indexes[k.slot].did_insert_occur by {
        if state.code_shreds.contains_key(k) {
        }
    }
}

/// One shred of a batch keeps the state tracking the ledger.
pub proof fn lemma_batch_step_tracks(
    p: Progress,
    shred: ShredView,
    is_repaired: bool,
    is_trusted: bool,
    now: u64,
    i: usize,
)
    requires
        step_allowed(p, shred, is_repaired, is_trusted, now),
        ledger_sound(p.store.ledger),
        state_sound(p.store.ledger, p.state),
        tracks(p.store.ledger, p.state),
    ensures
        ({
            let q = batch_step(p, shred, is_repaired, is_trusted, now, i);
            tracks(q.store.ledger, q.state)
        }),
{
    if shred.is_data() {
        let source = if is_repaired {
            ShredSource::Repaired
        } else {
            ShredSource::Turbine
        };
        lemma_data_step_tracks(p.store, p.state, shred, is_trusted, source, now);
        let step = data_step(p.store, p.state, shred, is_trusted, source, now);
        let q = batch_step(p, shred, is_repaired, is_trusted, now, i);
        lemma_tracks_same_sets(q.store.ledger, step.state, q.state);
    } else {
        lemma_code_step_tracks(p.store, p.state, shred, is_trusted, is_repaired);
    }
}

proof fn lemma_tracks_same_sets(ledger: LedgerView, a: InsertionView, b: InsertionView)
    requires
        tracks(ledger, a),
        a.slot_metas == b.slot_metas,
        a.indexes == b.indexes,
        a.data_shreds == b.data_shreds,
        a.code_shreds == b.code_shreds,
        a.write_batch == b.write_batch,
    ensures
        tracks(ledger, b),
{
}

/// One recovered shred keeps the state tracking the ledger.
pub proof fn lemma_recovered_step_tracks(
    p: Progress,
    recovered: RecoveredShredView,
    is_trusted: bool,
    now: u64,
)
    requires
        ledger_sound(p.store.ledger),
        state_sound(p.store.ledger, p.state),
        tracks(p.store.ledger, p.state),
    ensures
        ({
            let q = recovered_step(p, recovered, is_trusted, now);
            tracks(q.store.ledger, q.state)
        }),
{
    let q = recovered_step(p, recovered, is_trusted, now);
    if recovered.verified == Some(true) && taken_up(p, recovered.shred, is_trusted, now) {
        lemma_data_step_tracks(
            p.store,
            p.state,
            recovered.shred,
            is_trusted,
            ShredSource::Recovered,
            now,
        );
        let step = data_step(
            p.store,
            p.state,
            recovered.shred,
            is_trusted,
            ShredSource::Recovered,
            now,
        );
        lemma_tracks_same_sets(q.store.ledger, step.state, q.state);
    } else {
        lemma_tracks_same_sets(q.store.ledger, p.state, q.state);
    }
}

/// The part of the metadata that chaining leaves alone.
pub open spec fn frame(meta: SlotMetaView) -> SlotMetaView {
    SlotMetaView { next_slots: Seq::empty(), is_connected: true, ..meta }
}

/// Chaining changes nothing but children and connectedness, and brings no slot of the batch to
/// hand a second time.
pub open spec fn frames_kept(ledger: LedgerView, a: ChainView, b: ChainView) -> bool {
    &&& forall|k: u64|
        frame(#[trigger] effective_meta(ledger, b, k)) == frame(effective_meta(ledger, a, k))
    &&& a.working.dom() == b.working.dom()
    &&& forall|k: u64| #[trigger]
        a.working.contains_key(k) ==> b.working[k].old_slot_meta == a.working[k].old_slot_meta
            && b.working[k].did_insert_occur == a.working[k].did_insert_occur
    &&& (forall|k: u64| #[trigger] a.chained.contains_key(k) ==> !a.working.contains_key(k)) ==> (
    forall|k: u64| #[trigger] b.chained.contains_key(k) ==> !b.working.contains_key(k))
}

proof fn lemma_linked_frames(ledger: LedgerView, c: ChainView, slot: Slot, prev: Slot)
    requires
        c.working.contains_key(slot),
    ensures
        frames_kept(ledger, c, linked(ledger, c, slot, prev)),
{
    let d = linked(ledger, c, slot, prev);
    assert(d.working.dom() =~= c.working.dom());
    assert forall|k: u64|
        frame(#[trigger] effective_meta(ledger, d, k)) == frame(effective_meta(ledger, c, k)) by {
        assert(frame(effective_meta(ledger, d, k)) =~= frame(effective_meta(ledger, c, k)));
    }
}

proof fn lemma_propagated_frames(ledger: LedgerView, c: ChainView, slot: Slot)
    ensures
        frames_kept(ledger, c, propagated(ledger, c, slot)),
{
    let d = propagated(ledger, c, slot);
    assert(d.working.dom() =~= c.working.dom());
    assert forall|k: u64|
        frame(#[trigger] effective_meta(ledger, d, k)) == frame(effective_meta(ledger, c, k)) by {
        assert(frame(effective_meta(ledger, d, k)) =~= frame(effective_meta(ledger, c, k)));
    }
}

proof fn lemma_frames_transitive(ledger: LedgerView, a: ChainView, b: ChainView, c: ChainView)
    requires
        frames_kept(ledger, a, b),
        frames_kept(ledger, b, c),
    ensures
        frames_kept(ledger, a, c),
{
    assert forall|k: u64|
        frame(#[trigger] effective_meta(ledger, c, k)) == frame(effective_meta(ledger, a, k)) by {
        assert(frame(effective_meta(ledger, b, k)) == frame(effective_meta(ledger, a, k)));
    }
    assert forall|k: u64| #[trigger] a.working.contains_key(k) implies c.working[k].old_slot_meta
        == a.working[k].old_slot_meta && c.working[k].did_insert_occur
        == a.working[k].did_insert_occur by {
        assert(a.working.dom().contains(k));
        assert(b.working.contains_key(k));
    }
}

proof fn lemma_chained_slot_frames(ledger: LedgerView, c: ChainView, slot: Slot)
    requires
        c.working.contains_key(slot),
    ensures
        frames_kept(ledger, c, chained_slot(ledger, c, slot)),
{
    let entry = c.working[slot];
    let c1 = if gets_parent(entry, slot) {
        linked(ledger, c, slot, entry.new_slot_meta.parent_slot->0)
    } else {
        c
    };
    if gets_parent(entry, slot) {
        lemma_linked_frames(ledger, c, slot, entry.new_slot_meta.parent_slot->0);
    }
    lemma_propagated_frames(ledger, c1, slot);
    lemma_frames_transitive(ledger, c, c1, propagated(ledger, c1, slot));
}

proof fn lemma_chained_slots_frames(ledger: LedgerView, c: ChainView, keys: Seq<u64>)
    requires
        forall|i: int| 0 <= i < keys.len() ==> c.working.contains_key(#[trigger] keys[i]),
    ensures
        frames_kept(ledger, c, chained_slots(ledger, c, keys)),
    decreases keys.len(),
{
    if keys.len() > 0 {
        let c1 = chained_slots(ledger, c, keys.drop_last());
        lemma_chained_slots_frames(ledger, c, keys.drop_last());
        assert(c.working.contains_key(keys[keys.len() - 1]));
        assert(c.working.dom().contains(keys.last()));
        assert(c1.working.dom().contains(keys.last()));
        lemma_chained_slot_frames(ledger, c1, keys.last());
        lemma_frames_transitive(ledger, c, c1, chained_slots(ledger, c, keys));
    }
}

/// Chaining a batch keeps the frames.
pub proof fn lemma_chained_batch_frames(ledger: LedgerView, slot_metas: Map<u64, MetaEntryView>)
    requires
        orders(ordered_keys(inserted_into(slot_metas)), inserted_into(slot_metas)),
    ensures
        frames_kept(
            ledger,
            ChainView { working: inserted_into(slot_metas), chained: Map::empty() },
            chained_batch(ledger, slot_metas),
        ),
{
    let kept = inserted_into(slot_metas);
    let ks = ordered_keys(kept);
    let c = ChainView { working: kept, chained: Map::<u64, SlotMetaView>::empty() };
    assert forall|i: int| 0 <= i < ks.len() implies kept.contains_key(#[trigger] ks[i]) by {
        assert(ks.contains(ks[i]));
    }
    lemma_chained_slots_frames(ledger, c, ks);
}

proof fn lemma_orphan_writes_apply(
    base: LedgerView,
    ledger: LedgerView,
    c: ChainView,
    keys: Seq<u64>,
)
    ensures
        ({
            let after = base.apply_all(orphan_writes_of(ledger, c, keys));
            after == LedgerView { orphans: after.orphans, ..base }
        }),
    decreases keys.len(),
{
    if keys.len() > 0 {
        let earlier = orphan_writes_of(ledger, c, keys.drop_last());
        let own = orphan_writes(
            ledger,
            chained_slots(ledger, c, keys.drop_last()),
            keys.last(),
        );
        lemma_orphan_writes_apply(base, ledger, c, keys.drop_last());
        lemma_apply_all_concat(base, earlier, own);
        let mid = base.apply_all(earlier);
        assert(own.len() <= 2);
        if own.len() >= 1 {
            assert(mid.apply_all(own.drop_last()).apply(own.last()) == mid.apply_all(own));
            if own.len() == 2 {
                assert(own.drop_last().drop_last() =~= Seq::empty());
                assert(mid.apply_all(own.drop_last()) == mid.apply_all(
                    own.drop_last().drop_last(),
                ).apply(own.drop_last().last()));
            } else {
                assert(own.drop_last() =~= Seq::empty());
            }
        }
    }
}

proof fn lemma_meta_writes_apply(base: LedgerView, metas: Map<u64, SlotMetaView>, keys: Seq<u64>)
    ensures
        base.apply_all(meta_writes(metas, keys)) == (LedgerView {
            meta: overlay(base.meta, Map::new(|k: u64| keys.contains(k), |k: u64| metas[k])),
            ..base
        }),
    decreases keys.len(),
{
    let part = Map::new(|k: u64| keys.contains(k), |k: u64| metas[k]);
    let ops = meta_writes(metas, keys);
    if keys.len() == 0 {
        assert(overlay(base.meta, part) =~= base.meta);
    } else {
        let before = keys.drop_last();
        let k0 = keys.last();
        lemma_meta_writes_apply(base, metas, before);
        assert(ops.drop_last() =~= meta_writes(metas, before));
        let part0 = Map::new(|k: u64| before.contains(k), |k: u64| metas[k]);
        assert forall|k: u64| keys.contains(k) <==> (before.contains(k) || k == k0) by {
            if keys.contains(k) {
                let j = choose|j: int| 0 <= j < keys.len() && keys[j] == k;
                if j < before.len() {
                    assert(before[j] == k);
                }
            }
            if before.contains(k) {
                let j = choose|j: int| 0 <= j < before.len() && before[j] == k;
                assert(keys[j] == k);
            }
        }
        assert(overlay(base.meta, part0).insert(k0, metas[k0]) =~= overlay(base.meta, part));
    }
}

proof fn lemma_changed_writes_apply(
    base: LedgerView,
    working: Map<u64, MetaEntryView>,
    keys: Seq<u64>,
)
    requires
        forall|i: int, j: int| 0 <= i < j < keys.len() ==> keys[i] != keys[j],
    ensures
        base.apply_all(changed_writes(working, keys)) == (LedgerView {
            meta: overlay(
                base.meta,
                Map::new(
                    |k: u64| keys.contains(k) && meta_changed(working[k]),
                    |k: u64| working[k].new_slot_meta,
                ),
            ),
            ..base
        }),
    decreases keys.len(),
{
    let part = Map::new(
        |k: u64| keys.contains(k) && meta_changed(working[k]),
        |k: u64| working[k].new_slot_meta,
    );
    if keys.len() == 0 {
        assert(overlay(base.meta, part) =~= base.meta);
    } else {
        let before = keys.drop_last();
        let k0 = keys.last();
        lemma_changed_writes_apply(base, working, before);
        let part0 = Map::new(
            |k: u64| before.contains(k) && meta_changed(working[k]),
            |k: u64| working[k].new_slot_meta,
        );
        assert forall|k: u64| keys.contains(k) <==> (before.contains(k) || k == k0) by {
            if keys.contains(k) {
                let j = choose|j: int| 0 <= j < keys.len() && keys[j] == k;
                if j < before.len() {
                    assert(before[j] == k);
                }
            }
            if before.contains(k) {
                let j = choose|j: int| 0 <= j < before.len() && before[j] == k;
                assert(keys[j] == k);
            }
        }
        if meta_changed(working[k0]) {
            lemma_apply_push(
                base,
                changed_writes(working, before),
                WriteOpView::PutMeta(k0, working[k0].new_slot_meta),
            );
            assert(overlay(base.meta, part0).insert(k0, working[k0].new_slot_meta) =~= overlay(
                base.meta,
                part,
            ));
        } else {
            assert(overlay(base.meta, part0) =~= overlay(base.meta, part));
        }
    }
}

proof fn lemma_erasure_writes_apply(
    base: LedgerView,
    metas: Map<SlotIndex, ErasureMeta>,
    keys: Seq<SlotIndex>,
)
    ensures
        base.apply_all(erasure_writes(metas, keys)) == (LedgerView {
            erasure_meta: overlay(
                base.erasure_meta,
                Map::new(|k: SlotIndex| keys.contains(k), |k: SlotIndex| metas[k]),
            ),
            ..base
        }),
    decreases keys.len(),
{
    let part = Map::new(|k: SlotIndex| keys.contains(k), |k: SlotIndex| metas[k]);
    let ops = erasure_writes(metas, keys);
    if keys.len() == 0 {
        assert(overlay(base.erasure_meta, part) =~= base.erasure_meta);
    } else {
        let before = keys.drop_last();
        let k0 = keys.last();
        lemma_erasure_writes_apply(base, metas, before);
        assert(ops.drop_last() =~= erasure_writes(metas, before));
        let part0 = Map::new(|k: SlotIndex| before.contains(k), |k: SlotIndex| metas[k]);
        assert forall|k: SlotIndex| keys.contains(k) <==> (before.contains(k) || k == k0) by {
            if keys.contains(k) {
                let j = choose|j: int| 0 <= j < keys.len() && keys[j] == k;
                if j < before.len() {
                    assert(before[j] == k);
                }
            }
            if before.contains(k) {
                let j = choose|j: int| 0 <= j < before.len() && before[j] == k;
                assert(keys[j] == k);
            }
        }
        assert(overlay(base.erasure_meta, part0).insert(k0, metas[k0]) =~= overlay(
            base.erasure_meta,
            part,
        ));
    }
}

proof fn lemma_index_writes_apply(
    base: LedgerView,
    indexes: Map<u64, IndexEntryView>,
    keys: Seq<u64>,
)
    ensures
        base.apply_all(index_writes(indexes, keys)) == (LedgerView {
            index: overlay(
                base.index,
                Map::new(
                    |k: u64| keys.contains(k) && indexes[k].did_insert_occur,
                    |k: u64| indexes[k].index,
                ),
            ),
            ..base
        }),
    decreases keys.len(),
{
    let part = Map::new(
        |k: u64| keys.contains(k) && indexes[k].did_insert_occur,
        |k: u64| indexes[k].index,
    );
    if keys.len() == 0 {
        assert(overlay(base.index, part) =~= base.index);
    } else {
        let before = keys.drop_last();
        let k0 = keys.last();
        lemma_index_writes_apply(base, indexes, before);
        let part0 = Map::new(
            |k: u64| before.contains(k) && indexes[k].did_insert_occur,
            |k: u64| indexes[k].index,
        );
        assert forall|k: u64| keys.contains(k) <==> (before.contains(k) || k == k0) by {
            if keys.contains(k) {
                let j = choose|j: int| 0 <= j < keys.len() && keys[j] == k;
                if j < before.len() {
                    assert(before[j] == k);
                }
            }
            if before.contains(k) {
                let j = choose|j: int| 0 <= j < before.len() && before[j] == k;
                assert(keys[j] == k);
            }
        }
        if indexes[k0].did_insert_occur {
            lemma_apply_push(
                base,
                index_writes(indexes, before),
                WriteOpView::PutIndex(k0, indexes[k0].index),
            );
            assert(overlay(base.index, part0).insert(k0, indexes[k0].index) =~= overlay(
                base.index,
                part,
            ));
        } else {
            assert(overlay(base.index, part0) =~= overlay(base.index, part));
        }
    }
}

/// The writes of a batch leave in the ledger what `batch_result` says.
pub proof fn lemma_batch_result(ledger: LedgerView, state: InsertionView)
    requires
        tracks(ledger, state),
        orders(ordered_keys(inserted_into(state.slot_metas)), inserted_into(state.slot_metas)),
        orders(
            ordered_keys(chained_batch(ledger, state.slot_metas).chained),
            chained_batch(ledger, state.slot_metas).chained,
        ),
        orders(
            ordered_keys(chained_batch(ledger, state.slot_metas).working),
            chained_batch(ledger, state.slot_metas).working,
        ),
        orders(ordered_keys(state.erasure_metas), state.erasure_metas),
        orders(ordered_keys(state.indexes), state.indexes),
    ensures
        batch_result(ledger, state, ledger.apply_all(batch_writes(ledger, state))),
        ledger.apply_all(batch_writes(ledger, state)).code_shreds == ledger.apply_all(
            state.write_batch,
        ).code_shreds,
{
    let kept = inserted_into(state.slot_metas);
    let c0 = ChainView { working: kept, chained: Map::<u64, SlotMetaView>::empty() };
    let c = chained_batch(ledger, state.slot_metas);
    let working = c.working;
    let w1 = state.write_batch;
    let w2 = orphan_writes_of(ledger, c0, ordered_keys(kept));
    let w3 = meta_writes(c.chained, ordered_keys(c.chained));
    let w4 = changed_writes(working, ordered_keys(working));
    let w5 = erasure_writes(state.erasure_metas, ordered_keys(state.erasure_metas));
    let w6 = index_writes(state.indexes, ordered_keys(state.indexes));
    assert(batch_writes(ledger, state) =~= w1 + (w2 + w3) + w4 + w5 + w6);
    lemma_apply_all_concat(ledger, w1 + (w2 + w3) + w4 + w5, w6);
    lemma_apply_all_concat(ledger, w1 + (w2 + w3) + w4, w5);
    lemma_apply_all_concat(ledger, w1 + (w2 + w3), w4);
    lemma_apply_all_concat(ledger, w1, w2 + w3);
    let l1 = ledger.apply_all(w1);
    lemma_apply_all_concat(l1, w2, w3);
    lemma_orphan_writes_apply(l1, ledger, c0, ordered_keys(kept));
    let l2 = l1.apply_all(w2);
    lemma_apply_all_orphans(l1, ledger, w2);
    lemma_meta_writes_apply(l2, c.chained, ordered_keys(c.chained));
    let l3 = l2.apply_all(w3);
    let kw = ordered_keys(working);
    assert forall|i: int, j: int| 0 <= i < j < kw.len() implies kw[i] != kw[j] by {
        assert(kw[i] < kw[j]) by {
            assert(increasing(kw));
            assert(ColumnKey::before(kw[i], kw[j]));
        }
    }
    lemma_changed_writes_apply(l3, working, kw);
    let l4 = l3.apply_all(w4);
    lemma_erasure_writes_apply(l4, state.erasure_metas, ordered_keys(state.erasure_metas));
    let l5 = l4.apply_all(w5);
    lemma_index_writes_apply(l5, state.indexes, ordered_keys(state.indexes));
    let after = l5.apply_all(w6);
    lemma_chained_batch_frames(ledger, state.slot_metas);
    assert forall|k: u64| #[trigger] after.meta.contains_key(k) <==> overlay(
        ledger.meta,
        metas_at_hand(c),
    ).contains_key(k) by {
        assert(c.chained.contains_key(k) <==> ordered_keys(c.chained).contains(k));
        assert(working.contains_key(k) <==> kw.contains(k));
        if working.contains_key(k) && !meta_changed(working[k]) {
            assert(working.dom().contains(k));
            assert(kept.contains_key(k));
            assert(state.slot_metas.contains_key(k));
        }
    }
    assert forall|k: u64| #[trigger] after.meta.contains_key(k) implies after.meta[k] == overlay(
        ledger.meta,
        metas_at_hand(c),
    )[k] by {
        assert(c.chained.contains_key(k) <==> ordered_keys(c.chained).contains(k));
        assert(working.contains_key(k) <==> kw.contains(k));
        if working.contains_key(k) {
            assert(working.dom().contains(k));
            assert(kept.contains_key(k));
            assert(state.slot_metas.contains_key(k));
            assert(!c.chained.contains_key(k));
        }
    }
    assert(after.meta =~= overlay(ledger.meta, metas_at_hand(c)));
    assert forall|k: u64| #[trigger] after.index.contains_key(k) <==> overlay(
        ledger.index,
        touched_indexes(state.indexes),
    ).contains_key(k) by {
        assert(state.indexes.contains_key(k) <==> ordered_keys(state.indexes).contains(k));
    }
    assert forall|k: u64| #[trigger] after.index.contains_key(k) implies after.index[k] == overlay(
        ledger.index,
        touched_indexes(state.indexes),
    )[k] by {
        assert(state.indexes.contains_key(k) <==> ordered_keys(state.indexes).contains(k));
    }
    assert(after.index =~= overlay(ledger.index, touched_indexes(state.indexes)));
    assert forall|k: SlotIndex| #[trigger] after.erasure_meta.contains_key(k) <==> overlay(
        ledger.erasure_meta,
        state.erasure_metas,
    ).contains_key(k) by {
        assert(state.erasure_metas.contains_key(k) <==> ordered_keys(state.erasure_metas).contains(
            k,
        ));
    }
    assert forall|k: SlotIndex| #[trigger] after.erasure_meta.contains_key(k) implies
        after.erasure_meta[k] == overlay(ledger.erasure_meta, state.erasure_metas)[k] by {
        assert(state.erasure_metas.contains_key(k) <==> ordered_keys(state.erasure_metas).contains(
            k,
        ));
    }
    assert(after.erasure_meta =~= overlay(ledger.erasure_meta, state.erasure_metas));
}

} // verus!
