//! The ledger stays consistent under insertion: the indexes list the shreds that there are,
//! and the metadata of a slot agrees with its shreds.

use vstd::prelude::*;
use crate::batch::{
    batch_step, batch_steps, ledger_sound, lemma_batch_step_sound, lemma_code_step_sound,
    lemma_data_step_sound, lemma_recovered_step_sound, lemma_sound_chains, meta_sound,
    recovered_step, recovered_steps, same_but_duplicates, state_sound, step_allowed, steps_allowed,
    taken_up, Progress, RecoveredShredView,
};
use crate::blockstore::BlockstoreView;
use crate::chaining::{
    chained_batch, effective_meta, inserted_into, lemma_chained_slots_forward, ChainView,
};
use crate::coding::{code_allowed, code_readable, code_step, erasure_in_bounds};
use crate::column::{ordered_keys, orders, SlotIndex};
use crate::insertion::{
    data_allowed, data_step, has_data, index_entry, meta_after, meta_backed, meta_entry, shred_key,
    InsertionView, ShredSource,
};
use crate::integrity::{
    batch_result, frame, lemma_apply_all_same_but_duplicates, lemma_batch_step_tracks,
    lemma_chained_batch_frames, lemma_recovered_step_tracks, lemma_tracks_other_ledger,
    stored_shreds, tracks,
};
use crate::ledger::{LedgerView, WriteOpView};
use crate::meta::SlotMetaView;
use crate::shred::{parse_shred, ShredView};
use crate::slot_update::first_missing;
use crate::types::Slot;

verus! {

/// The metadata of a slot agrees with its data shreds, of which `present` says which there are:
/// `consumed` is the first index without a shred, `received` is above every shred, and the
/// last index and the ends of runs are indexes of shreds.
pub open spec fn meta_agrees(meta: SlotMetaView, present: spec_fn(u64) -> bool) -> bool {
    &&& forall|i: u64| i < meta.consumed ==> #[trigger] present(i)
    &&& !present(meta.consumed)
    &&& forall|i: u64| #[trigger] present(i) ==> i < meta.received
    &&& meta.received > 0 ==> present((meta.received - 1) as u64)
    &&& meta.last_index is Some ==> present(meta.last_index->0)
    &&& forall|i: u32| #[trigger]
        meta.completed_data_indexes.contains(i) ==> present(i as u64)
}

/// Which data shreds of a slot there are in the ledger.
pub open spec fn stored_in(ledger: LedgerView, slot: Slot) -> spec_fn(u64) -> bool {
    |i: u64| ledger.data_shreds.contains_key(SlotIndex { slot, index: i })
}

/// Which data shreds of a slot there are in the ledger or in a batch.
pub open spec fn known_in(
    ledger: LedgerView,
    data_shreds: Map<SlotIndex, ShredView>,
    slot: Slot,
) -> spec_fn(u64) -> bool {
    |i: u64| has_data(ledger, data_shreds, slot, i)
}

/// The ledger is consistent: every index lists exactly the shreds of its slot, every slot with
/// data shreds has metadata, the metadata of every slot agrees with its shreds, and every data
/// shred index has a successor.
pub open spec fn consistent(ledger: LedgerView) -> bool {
    &&& forall|k: SlotIndex| #[trigger]
        ledger.data_shreds.contains_key(k) ==> k.index < u32::MAX && ledger.meta.contains_key(
            k.slot,
        )
    &&& forall|k: SlotIndex| #[trigger]
        ledger.data_shreds.contains_key(k) <==> ledger.index.contains_key(k.slot)
            && ledger.index[k.slot].data.contains(k.index)
    &&& forall|k: SlotIndex| #[trigger]
        ledger.code_shreds.contains_key(k) <==> ledger.index.contains_key(k.slot)
            && ledger.index[k.slot].coding.contains(k.index)
    &&& forall|s: u64| #[trigger]
        ledger.meta.contains_key(s) ==> meta_agrees(ledger.meta[s], stored_in(ledger, s))
}

/// The ends of runs in the metadata of a slot are exactly those of its shreds that are marked
/// so.
pub open spec fn ends_marked(ledger: LedgerView) -> bool {
    forall|s: u64, i: u32|
        ledger.meta.contains_key(s) && ledger.data_shreds.contains_key(
            SlotIndex { slot: s, index: i as u64 },
        ) ==> (#[trigger] ledger.meta[s].completed_data_indexes.contains(i) <==> ends_run(
            ledger.data_shreds[SlotIndex { slot: s, index: i as u64 }],
        ))
}

/// The stored bytes are those of a data shred that ends a run of entries.
pub open spec fn ends_run(bytes: Seq<u8>) -> bool {
    parse_shred(bytes) is Some && (parse_shred(bytes)->0.data_complete() || parse_shred(
        bytes,
    )->0.last_in_slot())
}

/// What is stored of a data shred reads back with the same headers.
pub open spec fn faithful(shred: ShredView) -> bool {
    shred.is_data() ==> parse_shred(shred.stored()) is Some && parse_shred(
        shred.stored(),
    )->0.common_header == shred.common_header && parse_shred(shred.stored())->0.data_header
        == shred.data_header
}

/// The stored form of a data shred, from a batch or from the ledger.
pub open spec fn bytes_at(
    ledger: LedgerView,
    data_shreds: Map<SlotIndex, ShredView>,
    k: SlotIndex,
) -> Seq<u8> {
    if data_shreds.contains_key(k) {
        data_shreds[k].stored()
    } else {
        ledger.data_shreds[k]
    }
}

/// The state of an insertion is consistent in the same way.
pub open spec fn state_consistent(ledger: LedgerView, state: InsertionView) -> bool {
    &&& forall|k: SlotIndex| #[trigger]
        state.data_shreds.contains_key(k) ==> k.index < u32::MAX
    &&& forall|s: u64, i: u64|
        state.indexes.contains_key(s) ==> (#[trigger] state.indexes[s].index.data.contains(i)
            <==> has_data(ledger, state.data_shreds, s, i))
    &&& forall|s: u64, i: u64|
        state.indexes.contains_key(s) ==> (#[trigger] state.indexes[s].index.coding.contains(i)
            <==> ledger.code_shreds.contains_key(SlotIndex { slot: s, index: i })
            || state.code_shreds.contains_key(SlotIndex { slot: s, index: i }))
    &&& forall|s: u64| #[trigger]
        state.slot_metas.contains_key(s) ==> meta_agrees(
            state.slot_metas[s].new_slot_meta,
            known_in(ledger, state.data_shreds, s),
        )
}

/// The ends of runs in the metadata of an insertion are exactly those of its shreds that are
/// marked so.
pub open spec fn state_ends_marked(ledger: LedgerView, state: InsertionView) -> bool {
    forall|s: u64, i: u32|
        state.slot_metas.contains_key(s) && has_data(ledger, state.data_shreds, s, i as u64) ==> (
        #[trigger] state.slot_metas[s].new_slot_meta.completed_data_indexes.contains(i)
            <==> ends_run(
            bytes_at(ledger, state.data_shreds, SlotIndex { slot: s, index: i as u64 }),
        ))
}

/// The first missing index is missing, and everything before it is not.
pub proof fn lemma_first_missing(set: Set<u64>, from: u64, bound: u64)
    requires
        forall|i: u64| #[trigger] set.contains(i) ==> i < bound,
        from <= bound,
    ensures
        from <= first_missing(set, from) <= bound,
        !set.contains(first_missing(set, from)),
        forall|i: u64| from <= i < first_missing(set, from) ==> #[trigger] set.contains(i),
    decreases bound - from,
{
    if set.contains(from) {
        lemma_first_missing(set, (from + 1) as u64, bound);
        assert forall|i: u64| from <= i < first_missing(set, from) implies #[trigger] set.contains(
            i,
        ) by {
            if i > from {
                assert((from + 1) as u64 <= i);
            }
        }
    }
}

/// What a batch leaves in the ledger is sound.
pub proof fn lemma_result_sound(before: LedgerView, state: InsertionView, after: LedgerView)
    requires
        ledger_sound(before),
        state_sound(before, state),
        batch_result(before, state, after),
        code_readable(after),
        orders(ordered_keys(inserted_into(state.slot_metas)), inserted_into(state.slot_metas)),
    ensures
        ledger_sound(after),
{
    let kept = inserted_into(state.slot_metas);
    let c0 = ChainView { working: kept, chained: Map::<u64, SlotMetaView>::empty() };
    let c = chained_batch(before, state.slot_metas);
    let ks = ordered_keys(kept);
    assert forall|i: int| 0 <= i < ks.len() implies c0.working.contains_key(#[trigger] ks[i]) by {
        assert(ks.contains(ks[i]));
    }
    lemma_sound_chains(before, state);
    lemma_chained_slots_forward(before, c0, ks);
    lemma_chained_batch_frames(before, state.slot_metas);
    assert forall|k: u64| #[trigger] after.meta.contains_key(k) implies meta_sound(
        after,
        Map::empty(),
        k,
        after.meta[k],
    ) by {
        let m = after.meta[k];
        assert(m == effective_meta(before, c, k));
        let m0 = effective_meta(before, c0, k);
        assert(frame(m) == frame(m0));
        assert(m.parent_slot == frame(m).parent_slot && m.last_index == frame(m).last_index
            && m.received == frame(m).received && m.completed_data_indexes == frame(
            m,
        ).completed_data_indexes);
        assert(m0.parent_slot == frame(m0).parent_slot && m0.last_index == frame(m0).last_index
            && m0.received == frame(m0).received && m0.completed_data_indexes == frame(
            m0,
        ).completed_data_indexes);
        if kept.contains_key(k) {
            assert(state.slot_metas.contains_key(k));
            assert(meta_sound(before, state.data_shreds, k, m0));
        } else if before.meta.contains_key(k) {
            assert(meta_sound(before, Map::empty(), k, m0));
        }
        assert forall|i: u64| has_data(before, state.data_shreds, k, i) implies has_data(
            after,
            Map::empty(),
            k,
            i,
        ) by {
            let key = SlotIndex { slot: k, index: i };
            assert(stored_shreds(state.data_shreds).contains_key(key)
                == state.data_shreds.contains_key(key));
        }
        assert(meta_backed(after, Map::empty(), k, m));
        assert forall|i: int| 0 <= i < m.next_slots.len() implies k < #[trigger] m.next_slots[i] by {
            assert(k < effective_meta(before, c, k).next_slots[i]);
        }
    }
    assert(erasure_in_bounds(after.erasure_meta)) by {
        assert forall|k: SlotIndex| #[trigger] after.erasure_meta.contains_key(k) implies
            after.erasure_meta[k].in_bounds() by {
            if state.erasure_metas.contains_key(k) {
            } else {
                assert(before.erasure_meta.contains_key(k));
            }
        }
    }
}

/// What a batch leaves in the ledger is consistent.
pub proof fn lemma_result_consistent(before: LedgerView, state: InsertionView, after: LedgerView)
    requires
        consistent(before),
        tracks(before, state),
        state_consistent(before, state),
        batch_result(before, state, after),
        orders(ordered_keys(inserted_into(state.slot_metas)), inserted_into(state.slot_metas)),
    ensures
        consistent(after),
{
    let kept = inserted_into(state.slot_metas);
    let c0 = ChainView { working: kept, chained: Map::<u64, SlotMetaView>::empty() };
    let c = chained_batch(before, state.slot_metas);
    lemma_chained_batch_frames(before, state.slot_metas);
    let ss = stored_shreds(state.data_shreds);
    assert forall|k: SlotIndex| #[trigger] after.data_shreds.contains_key(k) implies k.index
        < u32::MAX && after.meta.contains_key(k.slot) by {
        if state.data_shreds.contains_key(k) {
            assert(kept.contains_key(k.slot));
            assert(c0.working.dom().contains(k.slot));
            assert(c.working.contains_key(k.slot));
        } else {
            assert(before.data_shreds.contains_key(k));
        }
    }
    assert forall|k: SlotIndex| #[trigger] after.data_shreds.contains_key(k) <==> (
    after.index.contains_key(k.slot) && after.index[k.slot].data.contains(k.index)) by {
        let s = k.slot;
        let i = k.index;
        assert(k == SlotIndex { slot: s, index: i });
        assert(before.data_shreds.contains_key(k) <==> before.index.contains_key(s)
            && before.index[s].data.contains(i));
        if state.indexes.contains_key(s) && state.indexes[s].did_insert_occur {
            assert(state.indexes[s].index.data.contains(i) <==> has_data(
                before,
                state.data_shreds,
                s,
                i,
            ));
        } else {
            assert(!state.data_shreds.contains_key(k));
        }
    }
    assert forall|k: SlotIndex| #[trigger] after.code_shreds.contains_key(k) <==> (
    after.index.contains_key(k.slot) && after.index[k.slot].coding.contains(k.index)) by {
        let s = k.slot;
        let i = k.index;
        assert(k == SlotIndex { slot: s, index: i });
        assert(before.code_shreds.contains_key(k) <==> before.index.contains_key(s)
            && before.index[s].coding.contains(i));
        if state.indexes.contains_key(s) && state.indexes[s].did_insert_occur {
            assert(state.indexes[s].index.coding.contains(i) <==> (before.code_shreds.contains_key(
                k,
            ) || state.code_shreds.contains_key(k)));
        } else {
            assert(!state.code_shreds.contains_key(k));
        }
    }
    assert forall|s: u64| #[trigger] after.meta.contains_key(s) implies meta_agrees(
        after.meta[s],
        stored_in(after, s),
    ) by {
        let m = after.meta[s];
        assert(m == effective_meta(before, c, s));
        let m0 = effective_meta(before, c0, s);
        assert(frame(m) == frame(m0));
        assert(m.consumed == frame(m).consumed && m.last_index == frame(m).last_index && m.received
            == frame(m).received && m.completed_data_indexes == frame(m).completed_data_indexes);
        assert(m0.consumed == frame(m0).consumed && m0.last_index == frame(m0).last_index
            && m0.received == frame(m0).received && m0.completed_data_indexes == frame(
            m0,
        ).completed_data_indexes);
        let p = stored_in(after, s);
        if kept.contains_key(s) {
            let q = known_in(before, state.data_shreds, s);
            assert(state.slot_metas.contains_key(s));
            assert(meta_agrees(m0, q));
            assert forall|i: u64| #[trigger] p(i) == q(i) by {
                let k = SlotIndex { slot: s, index: i };
                assert(ss.contains_key(k) == state.data_shreds.contains_key(k));
            }
            assert forall|i: u64| i < m.consumed implies #[trigger] p(i) by {
                assert(q(i));
            }
            assert(p(m.consumed) == q(m.consumed));
            assert forall|i: u32| #[trigger] m.completed_data_indexes.contains(i) implies p(
                i as u64,
            ) by {
                assert(q(i as u64));
                assert(p(i as u64) == q(i as u64));
            }
            if m.received > 0 {
                assert(p((m.received - 1) as u64) == q((m.received - 1) as u64));
            }
            if m.last_index is Some {
                assert(p(m.last_index->0) == q(m.last_index->0));
            }
        } else {
            let q = stored_in(before, s);
            assert forall|i: u64| #[trigger] p(i) == q(i) by {
                let k = SlotIndex { slot: s, index: i };
                assert(ss.contains_key(k) == state.data_shreds.contains_key(k));
                if state.data_shreds.contains_key(k) {
                    assert(kept.contains_key(k.slot));
                }
            }
            if before.meta.contains_key(s) {
                assert(meta_agrees(m0, q));
                assert forall|i: u64| i < m.consumed implies #[trigger] p(i) by {
                    assert(q(i));
                }
                assert(p(m.consumed) == q(m.consumed));
                assert forall|i: u32| #[trigger] m.completed_data_indexes.contains(i) implies p(
                    i as u64,
                ) by {
                    assert(q(i as u64));
                    assert(p(i as u64) == q(i as u64));
                }
                if m.received > 0 {
                    assert(p((m.received - 1) as u64) == q((m.received - 1) as u64));
                }
                if m.last_index is Some {
                    assert(p(m.last_index->0) == q(m.last_index->0));
                }
            } else {
                assert forall|i: u64| !(#[trigger] p(i)) by {
                    assert(p(i) == q(i));
                    let k = SlotIndex { slot: s, index: i };
                    if before.data_shreds.contains_key(k) {
                        assert(before.meta.contains_key(k.slot));
                    }
                }
            }
        }
    }
}

/// What a batch leaves in the ledger has its ends of runs marked.
pub proof fn lemma_result_marked(before: LedgerView, state: InsertionView, after: LedgerView)
    requires
        consistent(before),
        ends_marked(before),
        tracks(before, state),
        state_ends_marked(before, state),
        batch_result(before, state, after),
        orders(ordered_keys(inserted_into(state.slot_metas)), inserted_into(state.slot_metas)),
    ensures
        ends_marked(after),
{
    let kept = inserted_into(state.slot_metas);
    let c0 = ChainView { working: kept, chained: Map::<u64, SlotMetaView>::empty() };
    let c = chained_batch(before, state.slot_metas);
    lemma_chained_batch_frames(before, state.slot_metas);
    let ss = stored_shreds(state.data_shreds);
    assert forall|s: u64, i: u32|
        after.meta.contains_key(s) && after.data_shreds.contains_key(
            SlotIndex { slot: s, index: i as u64 },
        ) implies (#[trigger] after.meta[s].completed_data_indexes.contains(i) <==> ends_run(
        after.data_shreds[SlotIndex { slot: s, index: i as u64 }],
    )) by {
        let k = SlotIndex { slot: s, index: i as u64 };
        let m = after.meta[s];
        assert(m == effective_meta(before, c, s));
        let m0 = effective_meta(before, c0, s);
        assert(frame(m) == frame(m0));
        assert(m.completed_data_indexes == frame(m).completed_data_indexes);
        assert(m0.completed_data_indexes == frame(m0).completed_data_indexes);
        assert(ss.contains_key(k) == state.data_shreds.contains_key(k));
        if kept.contains_key(s) {
            assert(state.slot_metas.contains_key(s));
            assert(state.slot_metas[s].new_slot_meta.completed_data_indexes.contains(i)
                <==> ends_run(bytes_at(before, state.data_shreds, k)));
        } else {
            if state.data_shreds.contains_key(k) {
                assert(kept.contains_key(k.slot));
            }
            assert(before.data_shreds.contains_key(k));
            assert(before.meta.contains_key(k.slot));
            assert(before.meta[s].completed_data_indexes.contains(i) <==> ends_run(
                before.data_shreds[k],
            ));
        }
    }
}

/// A new state is consistent.
pub proof fn lemma_start_consistent(ledger: LedgerView, state: InsertionView)
    requires
        state == InsertionView::start(state.metrics),
    ensures
        state_consistent(ledger, state),
        state_ends_marked(ledger, state),
{
}

proof fn lemma_meta_entry_agrees(
    ledger: LedgerView,
    state: InsertionView,
    slot: Slot,
    parent: Slot,
)
    requires
        consistent(ledger),
        tracks(ledger, state),
        state_consistent(ledger, state),
    ensures
        meta_agrees(
            meta_entry(ledger, state.slot_metas, slot, parent).new_slot_meta,
            known_in(ledger, state.data_shreds, slot),
        ),
{
    let m = meta_entry(ledger, state.slot_metas, slot, parent).new_slot_meta;
    let p = known_in(ledger, state.data_shreds, slot);
    if !state.slot_metas.contains_key(slot) {
        let q = stored_in(ledger, slot);
        assert forall|i: u64| #[trigger] p(i) == q(i) by {
            let k = SlotIndex { slot, index: i };
            if state.data_shreds.contains_key(k) {
                assert(state.slot_metas.contains_key(k.slot));
            }
        }
        if ledger.meta.contains_key(slot) {
            let m0 = ledger.meta[slot];
            assert(meta_agrees(m0, q));
            assert forall|i: u64| i < m.consumed implies #[trigger] p(i) by {
                assert(q(i));
            }
            assert(p(m.consumed) == q(m.consumed));
            assert forall|i: u32| #[trigger] m.completed_data_indexes.contains(i) implies p(
                i as u64,
            ) by {
                assert(q(i as u64));
                assert(p(i as u64) == q(i as u64));
            }
            if m.received > 0 {
                assert(p((m.received - 1) as u64) == q((m.received - 1) as u64));
            }
            if m.last_index is Some {
                assert(p(m.last_index->0) == q(m.last_index->0));
            }
        } else {
            assert forall|i: u64| !(#[trigger] p(i)) by {
                assert(p(i) == q(i));
                let k = SlotIndex { slot, index: i };
                if ledger.data_shreds.contains_key(k) {
                    assert(ledger.meta.contains_key(k.slot));
                }
            }
        }
    }
}

proof fn lemma_index_entry_lists(ledger: LedgerView, state: InsertionView, slot: Slot, i: u64)
    requires
        consistent(ledger),
        tracks(ledger, state),
        state_consistent(ledger, state),
    ensures
        ({
            let e = index_entry(ledger, state.indexes, slot);
            let k = SlotIndex { slot, index: i };
            &&& e.index.data.contains(i) <==> has_data(ledger, state.data_shreds, slot, i)
            &&& e.index.coding.contains(i) <==> ledger.code_shreds.contains_key(k)
                || state.code_shreds.contains_key(k)
        }),
{
    let k = SlotIndex { slot, index: i };
    let e = index_entry(ledger, state.indexes, slot);
    if state.indexes.contains_key(slot) {
        assert(state.indexes[slot].index.data.contains(i) <==> has_data(
            ledger,
            state.data_shreds,
            slot,
            i,
        ));
        assert(state.indexes[slot].index.coding.contains(i) <==> (ledger.code_shreds.contains_key(
            k,
        ) || state.code_shreds.contains_key(k)));
    } else {
        if state.data_shreds.contains_key(k) {
            assert(state.indexes.contains_key(k.slot));
        }
        if state.code_shreds.contains_key(k) {
            assert(state.indexes.contains_key(k.slot));
        }
        assert(ledger.data_shreds.contains_key(k) <==> ledger.index.contains_key(k.slot)
            && ledger.index[k.slot].data.contains(k.index));
        assert(ledger.code_shreds.contains_key(k) <==> ledger.index.contains_key(k.slot)
            && ledger.index[k.slot].coding.contains(k.index));
    }
}

/// The metadata still agrees with the shreds after one more has come.
proof fn lemma_meta_after_agrees(
    meta: SlotMetaView,
    received: Set<u64>,
    shred: ShredView,
    now: u64,
    before: spec_fn(u64) -> bool,
    after: spec_fn(u64) -> bool,
)
    requires
        shred.index() < u32::MAX,
        meta_agrees(meta, before),
        forall|i: u64| #[trigger] received.contains(i) <==> before(i),
        forall|i: u64| #[trigger] before(i) ==> i < u32::MAX,
        forall|i: u64| #[trigger] after(i) <==> before(i) || i == shred.index(),
    ensures
        meta_agrees(meta_after(meta, received, shred, now), after),
{
    let m = meta_after(meta, received, shred, now);
    let x = shred.index() as u64;
    assert forall|i: u64| #[trigger] received.contains(i) implies i < u32::MAX as u64 by {
        assert(before(i));
    }
    if meta.consumed == x {
        lemma_first_missing(received, (x + 1) as u64, u32::MAX as u64);
        assert forall|i: u64| i < m.consumed implies #[trigger] after(i) by {
            if i < x {
                assert(before(i));
            } else if i > x {
                assert(received.contains(i));
                assert(before(i));
            }
        }
        assert(!received.contains(m.consumed));
        assert(after(m.consumed) <==> before(m.consumed) || m.consumed == x);
        assert(!after(m.consumed));
    } else {
        assert forall|i: u64| i < m.consumed implies #[trigger] after(i) by {
            assert(before(i));
        }
        assert(after(m.consumed) <==> before(m.consumed) || m.consumed == x);
    }
    assert forall|i: u64| #[trigger] after(i) implies i < m.received by {
        if i != x {
            assert(before(i));
        }
    }
    assert(after((m.received - 1) as u64)) by {
        if m.received != x + 1 {
            assert(before((m.received - 1) as u64));
        }
    }
    if m.last_index is Some {
        assert(after(m.last_index->0)) by {
            if meta.last_index is Some {
                assert(before(meta.last_index->0));
            }
        }
    }
    assert forall|i: u32| #[trigger] m.completed_data_indexes.contains(i) implies after(i as u64) by {
        if i != shred.index() {
            assert(meta.completed_data_indexes.contains(i));
            assert(before(i as u64));
        }
    }
}

/// The ledger but for the proofs of two versions decides what is consistent.
proof fn lemma_consistent_other_ledger(a: LedgerView, b: LedgerView, state: InsertionView)
    requires
        same_but_duplicates(a, b),
    ensures
        consistent(a) ==> consistent(b),
        state_consistent(a, state) ==> state_consistent(b, state),
        ends_marked(a) ==> ends_marked(b),
        state_ends_marked(a, state) ==> state_ends_marked(b, state),
{
    if consistent(a) {
        assert forall|s: u64| #[trigger] b.meta.contains_key(s) implies meta_agrees(
            b.meta[s],
            stored_in(b, s),
        ) by {
            assert(stored_in(a, s) =~= stored_in(b, s));
        }
        assert forall|k: SlotIndex| #[trigger] b.data_shreds.contains_key(k) <==> (
        b.index.contains_key(k.slot) && b.index[k.slot].data.contains(k.index)) by {
            assert(a.data_shreds.contains_key(k) <==> a.index.contains_key(k.slot)
                && a.index[k.slot].data.contains(k.index));
        }
        assert forall|k: SlotIndex| #[trigger] b.code_shreds.contains_key(k) <==> (
        b.index.contains_key(k.slot) && b.index[k.slot].coding.contains(k.index)) by {
            assert(a.code_shreds.contains_key(k) <==> a.index.contains_key(k.slot)
                && a.index[k.slot].coding.contains(k.index));
        }
    }
    if state_consistent(a, state) {
        assert forall|s: u64| #[trigger] state.slot_metas.contains_key(s) implies meta_agrees(
            state.slot_metas[s].new_slot_meta,
            known_in(b, state.data_shreds, s),
        ) by {
            assert(known_in(a, state.data_shreds, s) =~= known_in(b, state.data_shreds, s));
        }
    }
}

/// A data shred keeps the state of an insertion consistent.
proof fn lemma_data_step_consistent(
    store: BlockstoreView,
    state: InsertionView,
    shred: ShredView,
    is_trusted: bool,
    source: ShredSource,
    now: u64,
)
    requires
        data_allowed(store, state, shred, is_trusted, source, now),
        ledger_sound(store.ledger),
        state_sound(store.ledger, state),
        consistent(store.ledger),
        tracks(store.ledger, state),
        state_consistent(store.ledger, state),
    ensures
        ({
            let step = data_step(store, state, shred, is_trusted, source, now);
            &&& consistent(step.store.ledger)
            &&& state_consistent(step.store.ledger, step.state)
        }),
{
    let step = data_step(store, state, shred, is_trusted, source, now);
    lemma_data_step_sound(store, state, shred, is_trusted, source, now);
    lemma_consistent_other_ledger(store.ledger, step.store.ledger, state);
    lemma_tracks_other_ledger(store.ledger, step.store.ledger, state);
    let l = step.store.ledger;
    let st = step.state;
    let slot = shred.slot();
    let x = shred.index() as u64;
    let key = shred_key(shred);
    let ie = index_entry(l, state.indexes, slot);
    assert(ie == index_entry(store.ledger, state.indexes, slot));
    assert forall|s: u64, i: u64| st.indexes.contains_key(s) implies (
    #[trigger] st.indexes[s].index.data.contains(i) <==> has_data(l, st.data_shreds, s, i)) by {
        lemma_index_entry_lists(l, state, s, i);
    }
    assert forall|s: u64, i: u64| st.indexes.contains_key(s) implies (
    #[trigger] st.indexes[s].index.coding.contains(i) <==> l.code_shreds.contains_key(
        SlotIndex { slot: s, index: i },
    ) || st.code_shreds.contains_key(SlotIndex { slot: s, index: i })) by {
        lemma_index_entry_lists(l, state, s, i);
    }
    if shred.parent() is Some {
        let parent = shred.parent()->0;
        let me = meta_entry(l, state.slot_metas, slot, parent);
        assert(me == meta_entry(store.ledger, state.slot_metas, slot, parent));
        lemma_meta_entry_agrees(l, state, slot, parent);
        let before = known_in(l, state.data_shreds, slot);
        let after = known_in(l, st.data_shreds, slot);
        if step.result is Ok {
            assert forall|i: u64| #[trigger] ie.index.data.contains(i) <==> before(i) by {
                lemma_index_entry_lists(l, state, slot, i);
            }
            assert forall|i: u64| #[trigger] before(i) implies i < u32::MAX by {
                let k = SlotIndex { slot, index: i };
                assert(state.data_shreds.contains_key(k) || l.data_shreds.contains_key(k));
            }
            assert forall|i: u64| #[trigger] after(i) <==> before(i) || i == shred.index() by {
                let k = SlotIndex { slot, index: i };
                if i == shred.index() {
                    assert(k == key);
                }
            }
            lemma_meta_after_agrees(me.new_slot_meta, ie.index.data, shred, now, before, after);
        }
        assert forall|s: u64| #[trigger] st.slot_metas.contains_key(s) implies meta_agrees(
            st.slot_metas[s].new_slot_meta,
            known_in(l, st.data_shreds, s),
        ) by {
            if s != slot {
                assert(state.slot_metas.contains_key(s));
                assert(known_in(l, st.data_shreds, s) =~= known_in(l, state.data_shreds, s));
            }
        }
    }
}

/// An untrusted data shred that is stored faithfully keeps the ends of runs marked.
proof fn lemma_data_step_marked(
    store: BlockstoreView,
    state: InsertionView,
    shred: ShredView,
    source: ShredSource,
    now: u64,
)
    requires
        data_allowed(store, state, shred, false, source, now),
        faithful(shred),
        ledger_sound(store.ledger),
        state_sound(store.ledger, state),
        consistent(store.ledger),
        tracks(store.ledger, state),
        state_consistent(store.ledger, state),
        ends_marked(store.ledger),
        state_ends_marked(store.ledger, state),
    ensures
        ({
            let step = data_step(store, state, shred, false, source, now);
            &&& ends_marked(step.store.ledger)
            &&& state_ends_marked(step.store.ledger, step.state)
        }),
{
    let step = data_step(store, state, shred, false, source, now);
    lemma_data_step_sound(store, state, shred, false, source, now);
    lemma_consistent_other_ledger(store.ledger, step.store.ledger, state);
    let l = step.store.ledger;
    let st = step.state;
    let slot = shred.slot();
    let key = shred_key(shred);
    let ie = index_entry(store.ledger, state.indexes, slot);
    lemma_index_entry_lists(store.ledger, state, slot, key.index);
    assert forall|s: u64, i: u32|
        st.slot_metas.contains_key(s) && has_data(l, st.data_shreds, s, i as u64) implies (
    #[trigger] st.slot_metas[s].new_slot_meta.completed_data_indexes.contains(i) <==> ends_run(
        bytes_at(l, st.data_shreds, SlotIndex { slot: s, index: i as u64 }),
    )) by {
        let k = SlotIndex { slot: s, index: i as u64 };
        if s == slot && step.result is Ok {
            let me = meta_entry(store.ledger, state.slot_metas, slot, shred.parent()->0);
            lemma_meta_entry_agrees(store.ledger, state, slot, shred.parent()->0);
            let p = known_in(store.ledger, state.data_shreds, slot);
            if i == shred.index() {
                assert(k == key);
                assert(!p(key.index));
                assert(st.data_shreds[k] == shred);
                if me.new_slot_meta.completed_data_indexes.contains(i) {
                    assert(p(i as u64));
                }
            } else {
                assert(p(i as u64));
                lemma_entry_marked(store.ledger, state, slot, shred.parent()->0, i);
            }
        } else if s == slot && shred.parent() is Some {
            lemma_entry_marked(store.ledger, state, slot, shred.parent()->0, i);
        } else {
            assert(state.slot_metas.contains_key(s));
            assert(state.slot_metas[s].new_slot_meta.completed_data_indexes.contains(i)
                <==> ends_run(bytes_at(store.ledger, state.data_shreds, k)));
        }
    }
}

proof fn lemma_entry_marked(
    ledger: LedgerView,
    state: InsertionView,
    slot: Slot,
    parent: Slot,
    i: u32,
)
    requires
        consistent(ledger),
        tracks(ledger, state),
        ends_marked(ledger),
        state_ends_marked(ledger, state),
        has_data(ledger, state.data_shreds, slot, i as u64),
    ensures
        meta_entry(
            ledger,
            state.slot_metas,
            slot,
            parent,
        ).new_slot_meta.completed_data_indexes.contains(i) <==> ends_run(
            bytes_at(ledger, state.data_shreds, SlotIndex { slot, index: i as u64 }),
        ),
{
    let k = SlotIndex { slot, index: i as u64 };
    if state.slot_metas.contains_key(slot) {
        assert(state.slot_metas[slot].new_slot_meta.completed_data_indexes.contains(i)
            <==> ends_run(bytes_at(ledger, state.data_shreds, k)));
    } else {
        if state.data_shreds.contains_key(k) {
            assert(state.slot_metas.contains_key(k.slot));
        }
        assert(ledger.data_shreds.contains_key(k));
        assert(ledger.meta.contains_key(k.slot));
        assert(ledger.meta[slot].completed_data_indexes.contains(i) <==> ends_run(
            ledger.data_shreds[k],
        ));
    }
}

/// A coding shred keeps the state of an insertion consistent.
proof fn lemma_code_step_consistent(
    store: BlockstoreView,
    state: InsertionView,
    shred: ShredView,
    is_trusted: bool,
    is_repaired: bool,
)
    requires
        shred.is_code(),
        code_allowed(store, state, shred, is_trusted),
        ledger_sound(store.ledger),
        state_sound(store.ledger, state),
        consistent(store.ledger),
        tracks(store.ledger, state),
        state_consistent(store.ledger, state),
    ensures
        ({
            let step = code_step(store, state, shred, is_trusted, is_repaired);
            &&& consistent(step.store.ledger)
            &&& state_consistent(step.store.ledger, step.state)
            &&& ends_marked(store.ledger) ==> ends_marked(step.store.ledger)
            &&& state_ends_marked(store.ledger, state) ==> state_ends_marked(
                step.store.ledger,
                step.state,
            )
        }),
{
    let step = code_step(store, state, shred, is_trusted, is_repaired);
    lemma_code_step_sound(store, state, shred, is_trusted, is_repaired);
    lemma_consistent_other_ledger(store.ledger, step.store.ledger, state);
    lemma_tracks_other_ledger(store.ledger, step.store.ledger, state);
    let l = step.store.ledger;
    let st = step.state;
    let slot = shred.slot();
    let key = shred_key(shred);
    assert(index_entry(l, state.indexes, slot) == index_entry(store.ledger, state.indexes, slot));
    assert forall|s: u64, i: u64| st.indexes.contains_key(s) implies (
    #[trigger] st.indexes[s].index.data.contains(i) <==> has_data(l, st.data_shreds, s, i)) by {
        lemma_index_entry_lists(l, state, s, i);
    }
    assert forall|s: u64, i: u64| st.indexes.contains_key(s) implies (
    #[trigger] st.indexes[s].index.coding.contains(i) <==> l.code_shreds.contains_key(
        SlotIndex { slot: s, index: i },
    ) || st.code_shreds.contains_key(SlotIndex { slot: s, index: i })) by {
        lemma_index_entry_lists(l, state, s, i);
        if s == slot && i == key.index {
            assert(SlotIndex { slot: s, index: i } == key);
        }
    }
    assert(st.slot_metas == state.slot_metas);
    assert(st.data_shreds == state.data_shreds);
    assert forall|s: u64| #[trigger] st.slot_metas.contains_key(s) implies meta_agrees(
        st.slot_metas[s].new_slot_meta,
        known_in(l, st.data_shreds, s),
    ) by {
        assert(state.slot_metas.contains_key(s));
    }
    if state_ends_marked(store.ledger, state) {
        assert(state_ends_marked(l, state));
        assert forall|s: u64, i: u32|
            st.slot_metas.contains_key(s) && has_data(l, st.data_shreds, s, i as u64) implies (
        #[trigger] st.slot_metas[s].new_slot_meta.completed_data_indexes.contains(i) <==> ends_run(
            bytes_at(l, st.data_shreds, SlotIndex { slot: s, index: i as u64 }),
        )) by {
            assert(state.slot_metas[s].new_slot_meta.completed_data_indexes.contains(i)
                <==> ends_run(
                bytes_at(l, state.data_shreds, SlotIndex { slot: s, index: i as u64 }),
            ));
        }
    }
}

/// Everything that holds of the progress of an insertion: soundness, and, where the ledger was
/// consistent, and its ends of runs marked, that they still are.
pub open spec fn progress_kept(
    p: Progress,
    was_consistent: bool,
    was_marked: bool,
    was_readable: bool,
) -> bool {
    &&& ledger_sound(p.store.ledger)
    &&& state_sound(p.store.ledger, p.state)
    &&& tracks(p.store.ledger, p.state)
    &&& was_consistent ==> consistent(p.store.ledger) && state_consistent(
        p.store.ledger,
        p.state,
    )
    &&& was_marked ==> ends_marked(p.store.ledger) && state_ends_marked(p.store.ledger, p.state)
    &&& was_readable ==> code_readable(p.store.ledger.apply_all(p.state.write_batch))
}

/// The bytes of a coding shred can be read.
pub open spec fn code_parses(shred: ShredView) -> bool {
    shred.is_code() ==> parse_shred(shred.payload) is Some
}

proof fn lemma_step_readable(
    a: LedgerView,
    b: LedgerView,
    ops: Seq<WriteOpView>,
    more: Seq<WriteOpView>,
)
    requires
        same_but_duplicates(a, b),
        code_readable(a.apply_all(ops)),
        forall|i: int|
            0 <= i < more.len() ==> match #[trigger] more[i] {
                WriteOpView::PutDeadSlot(_, _) => true,
                WriteOpView::PutDataShred(_, _) => true,
                WriteOpView::PutCodeShred(_, v) => parse_shred(v) is Some,
                _ => false,
            },
    ensures
        code_readable(b.apply_all(ops + more)),
    decreases more.len(),
{
    lemma_apply_all_same_but_duplicates(a, b, ops);
    let l = b.apply_all(ops);
    assert(l.code_shreds == a.apply_all(ops).code_shreds);
    assert(code_readable(l)) by {
        assert forall|k: SlotIndex| #[trigger] l.code_shreds.contains_key(k) implies parse_shred(
            l.code_shreds[k],
        ) is Some by {
            assert(a.apply_all(ops).code_shreds.contains_key(k));
        }
    }
    if more.len() == 0 {
        assert(ops + more =~= ops);
    } else {
        lemma_step_readable(a, b, ops, more.drop_last());
        assert((ops + more).drop_last() =~= ops + more.drop_last());
        assert((ops + more).last() == more[more.len() - 1]);
    }
}

/// One shred of a batch keeps what holds of the progress.
pub proof fn lemma_batch_step_kept(
    p: Progress,
    shred: ShredView,
    is_repaired: bool,
    is_trusted: bool,
    now: u64,
    i: usize,
    was_consistent: bool,
    was_marked: bool,
    was_readable: bool,
)
    requires
        step_allowed(p, shred, is_repaired, is_trusted, now),
        progress_kept(p, was_consistent, was_marked, was_readable),
        was_marked ==> was_consistent && !is_trusted && faithful(shred),
        was_readable ==> code_parses(shred),
    ensures
        progress_kept(
            batch_step(p, shred, is_repaired, is_trusted, now, i),
            was_consistent,
            was_marked,
            was_readable,
        ),
{
    let q = batch_step(p, shred, is_repaired, is_trusted, now, i);
    let l = q.store.ledger;
    let ops = p.state.write_batch;
    lemma_batch_step_sound(p, shred, is_repaired, is_trusted, now, i);
    lemma_batch_step_tracks(p, shred, is_repaired, is_trusted, now, i);
    if shred.is_data() {
        let source = if is_repaired {
            ShredSource::Repaired
        } else {
            ShredSource::Turbine
        };
        let step = data_step(p.store, p.state, shred, is_trusted, source, now);
        if was_consistent {
            lemma_data_step_consistent(p.store, p.state, shred, is_trusted, source, now);
            lemma_consistent_same_sets(l, step.state, q.state);
        }
        if was_marked {
            lemma_data_step_marked(p.store, p.state, shred, source, now);
            lemma_consistent_same_sets(l, step.state, q.state);
        }
        if was_readable {
            lemma_data_step_readable(p.store, p.state, shred, is_trusted, source, now);
        }
    } else {
        let step = code_step(p.store, p.state, shred, is_trusted, is_repaired);
        if was_consistent {
            lemma_code_step_consistent(p.store, p.state, shred, is_trusted, is_repaired);
        }
        if was_readable {
            let put = WriteOpView::PutCodeShred(shred_key(shred), shred.payload);
            if step.inserted {
                lemma_step_readable(p.store.ledger, l, ops, seq![put]);
                assert(ops.push(put) =~= ops + seq![put]);
            } else {
                lemma_step_readable(p.store.ledger, l, ops, Seq::empty());
                assert(ops + Seq::<WriteOpView>::empty() =~= ops);
            }
        }
    }
}

proof fn lemma_data_step_readable(
    store: BlockstoreView,
    state: InsertionView,
    shred: ShredView,
    is_trusted: bool,
    source: ShredSource,
    now: u64,
)
    requires
        data_allowed(store, state, shred, is_trusted, source, now),
        ledger_sound(store.ledger),
        state_sound(store.ledger, state),
        code_readable(store.ledger.apply_all(state.write_batch)),
    ensures
        ({
            let step = data_step(store, state, shred, is_trusted, source, now);
            code_readable(step.store.ledger.apply_all(step.state.write_batch))
        }),
{
    let step = data_step(store, state, shred, is_trusted, source, now);
    let l = step.store.ledger;
    let ops = state.write_batch;
    lemma_data_step_sound(store, state, shred, is_trusted, source, now);
    let dead = WriteOpView::PutDeadSlot(shred.slot(), true);
    let put = WriteOpView::PutDataShred(shred_key(shred), shred.stored());
    lemma_step_readable(store.ledger, l, ops, Seq::empty());
    lemma_step_readable(store.ledger, l, ops, seq![dead]);
    lemma_step_readable(store.ledger, l, ops, seq![put]);
    lemma_step_readable(store.ledger, l, ops, seq![dead, put]);
    assert(ops + Seq::<WriteOpView>::empty() =~= ops);
    assert(ops + seq![dead] =~= ops.push(dead));
    assert(ops + seq![put] =~= ops.push(put));
    assert(ops + seq![dead, put] =~= ops.push(dead).push(put));
    let now_batch = step.state.write_batch;
    assert(now_batch == ops || now_batch == ops.push(dead) || now_batch == ops.push(put)
        || now_batch == ops.push(dead).push(put));
}

proof fn lemma_consistent_same_sets(ledger: LedgerView, a: InsertionView, b: InsertionView)
    requires
        a.slot_metas == b.slot_metas,
        a.indexes == b.indexes,
        a.data_shreds == b.data_shreds,
        a.code_shreds == b.code_shreds,
    ensures
        state_consistent(ledger, a) ==> state_consistent(ledger, b),
        state_ends_marked(ledger, a) ==> state_ends_marked(ledger, b),
{
}

/// One recovered shred keeps what holds of the progress.
pub proof fn lemma_recovered_step_kept(
    p: Progress,
    recovered: RecoveredShredView,
    is_trusted: bool,
    now: u64,
    was_consistent: bool,
    was_marked: bool,
    was_readable: bool,
)
    requires
        progress_kept(p, was_consistent, was_marked, was_readable),
        was_marked ==> was_consistent && !is_trusted && faithful(recovered.shred),
    ensures
        progress_kept(
            recovered_step(p, recovered, is_trusted, now),
            was_consistent,
            was_marked,
            was_readable,
        ),
{
    let q = recovered_step(p, recovered, is_trusted, now);
    let shred = recovered.shred;
    lemma_recovered_step_sound(p, recovered, is_trusted, now);
    lemma_recovered_step_tracks(p, recovered, is_trusted, now);
    if recovered.verified == Some(true) && taken_up(p, shred, is_trusted, now) {
        let source = ShredSource::Recovered;
        let step = data_step(p.store, p.state, shred, is_trusted, source, now);
        if was_consistent {
            lemma_data_step_consistent(p.store, p.state, shred, is_trusted, source, now);
            lemma_consistent_same_sets(q.store.ledger, step.state, q.state);
        }
        if was_marked {
            lemma_data_step_marked(p.store, p.state, shred, source, now);
            lemma_consistent_same_sets(q.store.ledger, step.state, q.state);
        }
        if was_readable {
            lemma_data_step_readable(p.store, p.state, shred, is_trusted, source, now);
        }
    } else {
        lemma_consistent_same_sets(q.store.ledger, p.state, q.state);
    }
}

/// A batch keeps what holds of the progress.
pub proof fn lemma_batch_steps_kept(
    p: Progress,
    shreds: Seq<ShredView>,
    is_repaired: Seq<bool>,
    is_trusted: bool,
    now: u64,
    was_consistent: bool,
    was_marked: bool,
    was_readable: bool,
)
    requires
        steps_allowed(p, shreds, is_repaired, is_trusted, now),
        progress_kept(p, was_consistent, was_marked, was_readable),
        was_marked ==> was_consistent && !is_trusted && forall|i: int|
            0 <= i < shreds.len() ==> faithful(#[trigger] shreds[i]),
        was_readable ==> forall|i: int| 0 <= i < shreds.len() ==> code_parses(#[trigger] shreds[i]),
    ensures
        progress_kept(
            batch_steps(p, shreds, is_repaired, is_trusted, now),
            was_consistent,
            was_marked,
            was_readable,
        ),
    decreases shreds.len(),
{
    if shreds.len() > 0 {
        let before = shreds.drop_last();
        let n = shreds.len() - 1;
        assert forall|i: int| 0 <= i < before.len() implies (#[trigger] before[i]) == shreds[i] by {
        }
        lemma_batch_steps_kept(
            p,
            before,
            is_repaired,
            is_trusted,
            now,
            was_consistent,
            was_marked,
            was_readable,
        );
        assert(was_marked ==> faithful(shreds[n]));
        assert(was_readable ==> code_parses(shreds[n]));
        lemma_batch_step_kept(
            batch_steps(p, before, is_repaired, is_trusted, now),
            shreds.last(),
            is_repaired[n],
            is_trusted,
            now,
            n as usize,
            was_consistent,
            was_marked,
            was_readable,
        );
    }
}

/// Recovered shreds keep what holds of the progress.
pub proof fn lemma_recovered_steps_kept(
    p: Progress,
    recovered: Seq<RecoveredShredView>,
    is_trusted: bool,
    now: u64,
    was_consistent: bool,
    was_marked: bool,
    was_readable: bool,
)
    requires
        progress_kept(p, was_consistent, was_marked, was_readable),
        was_marked ==> was_consistent && !is_trusted && forall|i: int|
            0 <= i < recovered.len() ==> faithful((#[trigger] recovered[i]).shred),
    ensures
        progress_kept(
            recovered_steps(p, recovered, is_trusted, now),
            was_consistent,
            was_marked,
            was_readable,
        ),
    decreases recovered.len(),
{
    if recovered.len() > 0 {
        let before = recovered.drop_last();
        let n = recovered.len() - 1;
        assert forall|i: int| 0 <= i < before.len() implies (#[trigger] before[i])
            == recovered[i] by {
        }
        lemma_recovered_steps_kept(
            p,
            before,
            is_trusted,
            now,
            was_consistent,
            was_marked,
            was_readable,
        );
        assert(was_marked ==> faithful(recovered[n].shred));
        lemma_recovered_step_kept(
            recovered_steps(p, before, is_trusted, now),
            recovered.last(),
            is_trusted,
            now,
            was_consistent,
            was_marked,
            was_readable,
        );
    }
}

} // verus!
