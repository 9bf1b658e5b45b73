//! Insertion of a batch of shreds: each shred in turn, then those that were recovered, then
//! one write of all that changed.

use vstd::prelude::*;
use crate::blockstore::{lemma_apply_one, Blockstore, BlockstoreView};
use crate::chaining::{
    any_updates, chained_batch, chaining_writes, changed_writes, children_above,
    commit_slot_meta_working_set, completed_slots, effective_meta, handle_chaining, inserted_into,
    lemma_chained_slots_forward, orphan_writes_of, parents_below, ChainView, MetaEntryView,
};
use crate::coding::{
    code_allowed, code_readable, code_step, conflicting_shred, erasure_entry, erasure_in_bounds,
};
use crate::column::{ordered_keys, orders, Column, Duplicate, SlotIndex};
use crate::insertion::{
    data_allowed, data_step, insertable, meta_backed, meta_entry, payload_at, CompletedDataSetInfo,
    IndexEntryView, IndexMetaWorkingSetEntry, InsertDataShredError, InsertionState, InsertionView,
    ShredSource, SlotFullReport,
};
use crate::integrity::{batch_result, lemma_batch_result, tracks};
use crate::ledger::{op_in_range, op_views, LedgerView, WriteOp, WriteOpView};
use crate::meta::{DuplicateSlotProofView, ErasureMeta, SlotMetaView};
use crate::metrics::{bump, bump_u64, more, more_u64, BlockstoreInsertionMetrics};
use crate::shred::{parse_shred, shred_views, Shred, ShredView};
use crate::types::Slot;

verus! {

/// The links of a slot lead forward: its parent is below it and its children are above it.
/// Slot 0 may be its own parent.
pub open spec fn links_forward(slot: Slot, meta: SlotMetaView) -> bool {
    &&& slot != 0 && meta.parent_slot is Some ==> meta.parent_slot->0 < slot
    &&& forall|i: int| 0 <= i < meta.next_slots.len() ==> slot < #[trigger] meta.next_slots[i]
}

/// The metadata of a slot can be relied on while shreds are inserted.
pub open spec fn meta_sound(
    ledger: LedgerView,
    data_shreds: Map<SlotIndex, ShredView>,
    slot: Slot,
    meta: SlotMetaView,
) -> bool {
    meta_backed(ledger, data_shreds, slot, meta) && links_forward(slot, meta)
}

/// The ledger can be relied on while shreds are inserted: the shreds that its metadata speaks
/// of are there, its links lead forward, and its coding shreds can be read.
pub open spec fn ledger_sound(ledger: LedgerView) -> bool {
    &&& forall|k: u64| #[trigger]
        ledger.meta.contains_key(k) ==> meta_sound(ledger, Map::empty(), k, ledger.meta[k])
    &&& erasure_in_bounds(ledger.erasure_meta)
    &&& code_readable(ledger)
}

/// The state of an insertion can be relied on in the same way.
pub open spec fn state_sound(ledger: LedgerView, state: InsertionView) -> bool {
    &&& forall|k: u64| #[trigger]
        state.slot_metas.contains_key(k) ==> meta_sound(
            ledger,
            state.data_shreds,
            k,
            state.slot_metas[k].new_slot_meta,
        ) && state.slot_metas[k].new_slot_meta.parent_slot is Some
    &&& erasure_in_bounds(state.erasure_metas)
    &&& forall|k: SlotIndex| #[trigger]
        state.erasure_metas.contains_key(k) ==> state.indexes.contains_key(k.slot)
    &&& all_in_range(state.write_batch)
}

/// Every write can be made.
pub open spec fn all_in_range(ops: Seq<WriteOpView>) -> bool {
    forall|i: int| 0 <= i < ops.len() ==> op_in_range(#[trigger] ops[i])
}

/// Two ledgers agree but for the proofs that a slot has two versions.
pub open spec fn same_but_duplicates(a: LedgerView, b: LedgerView) -> bool {
    b == LedgerView { duplicate_slots: b.duplicate_slots, ..a }
}

proof fn lemma_with_duplicate(store: BlockstoreView, slot: Slot, a: Seq<u8>, b: Seq<u8>)
    ensures
        same_but_duplicates(store.ledger, store.with_duplicate(slot, a, b).ledger),
{
    if !store.ledger.duplicate_slots.contains_key(slot) {
        lemma_apply_one(
            store.ledger,
            WriteOpView::PutDuplicateSlot(
                slot,
                DuplicateSlotProofView { shred1: a, shred2: b },
            ),
        );
    }
}

/// A data shred leaves the ledger and the state sound, and writes nothing to the ledger but
/// proofs that a slot has two versions.
pub proof fn lemma_data_step_sound(
    store: BlockstoreView,
    state: InsertionView,
    shred: ShredView,
    is_trusted: bool,
    source: ShredSource,
    now: u64,
)
    requires
        data_allowed(store, state, shred, is_trusted, source, now),
        ledger_sound(store.ledger),
        state_sound(store.ledger, state),
    ensures
        ({
            let step = data_step(store, state, shred, is_trusted, source, now);
            &&& same_but_duplicates(store.ledger, step.store.ledger)
            &&& ledger_sound(step.store.ledger)
            &&& state_sound(step.store.ledger, step.state)
        }),
        shred.parent() is Some ==> {
            let me = meta_entry(
                store.ledger,
                state.slot_metas,
                shred.slot(),
                shred.parent()->0,
            );
            &&& me.new_slot_meta.parent_slot is Some
            &&& meta_backed(store.ledger, state.data_shreds, shred.slot(), me.new_slot_meta)
        },
{
    let slot = shred.slot();
    let step = data_step(store, state, shred, is_trusted, source, now);
    if shred.parent() is Some {
        let me = meta_entry(store.ledger, state.slot_metas, slot, shred.parent()->0);
        let meta = me.new_slot_meta;
        assert(shred.parent()->0 < slot || slot == 0);
        assert(meta_sound(store.ledger, state.data_shreds, slot, meta));
        if meta.last_index is Some {
            lemma_with_duplicate(
                store,
                slot,
                payload_at(
                    store.ledger,
                    state.data_shreds,
                    slot,
                    meta.last_index->0,
                ),
                shred.payload,
            );
        }
        lemma_with_duplicate(
            store,
            slot,
            payload_at(
                store.ledger,
                state.data_shreds,
                slot,
                (meta.received - 1) as u64,
            ),
            shred.payload,
        );
        assert(same_but_duplicates(store.ledger, step.store.ledger));
        let l = step.store.ledger;
        let st = step.state;
        assert forall|k: u64| #[trigger] l.meta.contains_key(k) implies meta_sound(
            l,
            Map::empty(),
            k,
            l.meta[k],
        ) by {
            assert(meta_sound(store.ledger, Map::empty(), k, store.ledger.meta[k]));
        }
        assert forall|k: u64| #[trigger] st.slot_metas.contains_key(k) implies meta_sound(
            l,
            st.data_shreds,
            k,
            st.slot_metas[k].new_slot_meta,
        ) && st.slot_metas[k].new_slot_meta.parent_slot is Some by {
            if k != slot {
                assert(state.slot_metas.contains_key(k));
                assert(meta_sound(
                    store.ledger,
                    state.data_shreds,
                    k,
                    state.slot_metas[k].new_slot_meta,
                ));
            }
        }
        assert forall|k: SlotIndex| #[trigger] st.erasure_metas.contains_key(k) implies
            st.erasure_metas[k].in_bounds() && st.indexes.contains_key(k.slot) by {
            if state.erasure_metas.contains_key(k) {
                assert(state.erasure_metas[k].in_bounds());
            } else {
                assert(store.ledger.erasure_meta.contains_key(k));
            }
        }
        assert(code_readable(l)) by {
            assert forall|k: SlotIndex| #[trigger] l.code_shreds.contains_key(k) implies parse_shred(
                l.code_shreds[k],
            ) is Some by {
                assert(store.ledger.code_shreds.contains_key(k));
            }
        }
    } else {
        assert forall|k: SlotIndex| #[trigger]
            step.state.erasure_metas.contains_key(k) implies step.state.indexes.contains_key(
            k.slot,
        ) by {
            assert(state.erasure_metas.contains_key(k));
        }
    }
}

/// A coding shred leaves the ledger and the state sound, and writes nothing to the ledger but
/// proofs that a slot has two versions.
pub proof fn lemma_code_step_sound(
    store: BlockstoreView,
    state: InsertionView,
    shred: ShredView,
    is_trusted: bool,
    is_repaired: bool,
)
    requires
        shred.is_code(),
        code_allowed(store, state, shred, is_trusted),
        ledger_sound(store.ledger),
        state_sound(store.ledger, state),
    ensures
        ({
            let step = code_step(store, state, shred, is_trusted, is_repaired);
            &&& same_but_duplicates(store.ledger, step.store.ledger)
            &&& ledger_sound(step.store.ledger)
            &&& state_sound(step.store.ledger, step.state)
        }),
{
    let step = code_step(store, state, shred, is_trusted, is_repaired);
    let meta = erasure_entry(store.ledger, state.erasure_metas, shred);
    let conflict = conflicting_shred(
        store.ledger,
        state.code_shreds,
        shred,
        meta,
    );
    if conflict is Some {
        lemma_with_duplicate(store, shred.slot(), conflict->0, shred.payload);
    }
    assert(same_but_duplicates(store.ledger, step.store.ledger));
    let l = step.store.ledger;
    let st = step.state;
    assert forall|k: u64| #[trigger] l.meta.contains_key(k) implies meta_sound(
        l,
        Map::empty(),
        k,
        l.meta[k],
    ) by {
        assert(meta_sound(store.ledger, Map::empty(), k, store.ledger.meta[k]));
    }
    assert forall|k: u64| #[trigger] st.slot_metas.contains_key(k) implies meta_sound(
        l,
        st.data_shreds,
        k,
        st.slot_metas[k].new_slot_meta,
    ) && st.slot_metas[k].new_slot_meta.parent_slot is Some by {
        assert(state.slot_metas.contains_key(k));
        assert(meta_sound(
            store.ledger,
            state.data_shreds,
            k,
            state.slot_metas[k].new_slot_meta,
        ));
    }
    assert forall|k: SlotIndex| #[trigger] st.erasure_metas.contains_key(k) implies
        st.erasure_metas[k].in_bounds() && st.indexes.contains_key(k.slot) by {
        if state.erasure_metas.contains_key(k) {
            assert(state.erasure_metas[k].in_bounds());
        } else if store.ledger.erasure_meta.contains_key(k) {
            assert(store.ledger.erasure_meta[k].in_bounds());
        }
    }
    assert(code_readable(l)) by {
        assert forall|k: SlotIndex| #[trigger] l.code_shreds.contains_key(k) implies parse_shred(
            l.code_shreds[k],
        ) is Some by {
            assert(store.ledger.code_shreds.contains_key(k));
        }
    }
}

/// The store and the state of an insertion.
pub struct Progress {
    pub store: BlockstoreView,
    pub state: InsertionView,
}

/// The shred at position `i` of a batch is handed in.
pub open spec fn batch_step(
    p: Progress,
    shred: ShredView,
    is_repaired: bool,
    is_trusted: bool,
    now: u64,
    i: usize,
) -> Progress {
    if shred.is_data() {
        let source = if is_repaired {
            ShredSource::Repaired
        } else {
            ShredSource::Turbine
        };
        let step = data_step(p.store, p.state, shred, is_trusted, source, now);
        let m = step.state.metrics;
        Progress {
            store: step.store,
            state: match step.result {
                Err(InsertDataShredError::Exists) => InsertionView {
                    metrics: BlockstoreInsertionMetrics {
                        num_data_shreds_exists: more(m.num_data_shreds_exists, 1),
                        ..m
                    },
                    ..step.state
                },
                Err(InsertDataShredError::InvalidShred) => InsertionView {
                    metrics: BlockstoreInsertionMetrics {
                        num_data_shreds_invalid: more(m.num_data_shreds_invalid, 1),
                        ..m
                    },
                    ..step.state
                },
                Err(InsertDataShredError::BlockstoreError(_)) => InsertionView {
                    metrics: BlockstoreInsertionMetrics {
                        num_data_shreds_blockstore_error: more(
                            m.num_data_shreds_blockstore_error,
                            1,
                        ),
                        ..m
                    },
                    ..step.state
                },
                Ok(sets) => InsertionView {
                    completed_data_sets: step.state.completed_data_sets + sets,
                    inserted_indices: step.state.inserted_indices.push(i),
                    metrics: BlockstoreInsertionMetrics {
                        num_inserted: more_u64(m.num_inserted),
                        ..m
                    },
                    ..step.state
                },
            },
        }
    } else {
        let step = code_step(p.store, p.state, shred, is_trusted, is_repaired);
        Progress { store: step.store, state: step.state }
    }
}

/// The shreds of a batch are handed in, one after the other.
pub open spec fn batch_steps(
    p: Progress,
    shreds: Seq<ShredView>,
    is_repaired: Seq<bool>,
    is_trusted: bool,
    now: u64,
) -> Progress
    decreases shreds.len(),
{
    if shreds.len() == 0 {
        p
    } else {
        let n = shreds.len() - 1;
        batch_step(
            batch_steps(p, shreds.drop_last(), is_repaired, is_trusted, now),
            shreds.last(),
            is_repaired[n],
            is_trusted,
            now,
            n as usize,
        )
    }
}

/// The state before the first shred of a batch of `n` shreds.
pub open spec fn batch_start(metrics: BlockstoreInsertionMetrics, n: usize) -> InsertionView {
    InsertionView::start(
        BlockstoreInsertionMetrics { num_shreds: more(metrics.num_shreds, n), ..metrics },
    )
}

/// A batch of shreds handed in to a store.
pub open spec fn batch_received(
    store: BlockstoreView,
    shreds: Seq<ShredView>,
    is_repaired: Seq<bool>,
    is_trusted: bool,
    now: u64,
    metrics: BlockstoreInsertionMetrics,
) -> Progress {
    batch_steps(
        Progress { store, state: batch_start(metrics, shreds.len() as usize) },
        shreds,
        is_repaired,
        is_trusted,
        now,
    )
}

/// Nothing of a new state is unsound.
pub proof fn lemma_start_sound(ledger: LedgerView, metrics: BlockstoreInsertionMetrics)
    ensures
        state_sound(ledger, InsertionView::start(metrics)),
{
}

/// Every shred of the batch can be stored.
pub open spec fn all_insertable(shreds: Seq<ShredView>, is_trusted: bool, now: u64) -> bool {
    forall|i: int| 0 <= i < shreds.len() ==> insertable(#[trigger] shreds[i], is_trusted, now)
}

/// How a shred of a batch came.
pub open spec fn source_of(is_repaired: bool) -> ShredSource {
    if is_repaired {
        ShredSource::Repaired
    } else {
        ShredSource::Turbine
    }
}

/// A shred of a batch may be handed in: it is refused, or can be stored.
pub open spec fn step_allowed(
    p: Progress,
    shred: ShredView,
    is_repaired: bool,
    is_trusted: bool,
    now: u64,
) -> bool {
    if shred.is_data() {
        data_allowed(p.store, p.state, shred, is_trusted, source_of(is_repaired), now)
    } else {
        code_allowed(p.store, p.state, shred, is_trusted)
    }
}

/// Every shred of a batch may be handed in, after those before it: it is refused, or can be
/// stored.
pub open spec fn steps_allowed(
    p: Progress,
    shreds: Seq<ShredView>,
    is_repaired: Seq<bool>,
    is_trusted: bool,
    now: u64,
) -> bool
    decreases shreds.len(),
{
    shreds.len() == 0 || {
        let before = shreds.drop_last();
        &&& steps_allowed(p, before, is_repaired, is_trusted, now)
        &&& step_allowed(
            batch_steps(p, before, is_repaired, is_trusted, now),
            shreds.last(),
            is_repaired[shreds.len() - 1],
            is_trusted,
            now,
        )
    }
}

/// Every shred of a batch may be handed in to a store.
pub open spec fn batch_allowed(
    store: BlockstoreView,
    shreds: Seq<ShredView>,
    is_repaired: Seq<bool>,
    is_trusted: bool,
    now: u64,
    metrics: BlockstoreInsertionMetrics,
) -> bool {
    steps_allowed(
        Progress { store, state: batch_start(metrics, shreds.len() as usize) },
        shreds,
        is_repaired,
        is_trusted,
        now,
    )
}

/// Shreds that can all be stored may be handed in, in any state.
pub proof fn lemma_insertable_allowed(
    p: Progress,
    shreds: Seq<ShredView>,
    is_repaired: Seq<bool>,
    is_trusted: bool,
    now: u64,
)
    requires
        all_insertable(shreds, is_trusted, now),
    ensures
        steps_allowed(p, shreds, is_repaired, is_trusted, now),
    decreases shreds.len(),
{
    if shreds.len() > 0 {
        let before = shreds.drop_last();
        assert forall|i: int| 0 <= i < before.len() implies insertable(
            #[trigger] before[i],
            is_trusted,
            now,
        ) by {
            assert(before[i] == shreds[i]);
        }
        assert(insertable(shreds[shreds.len() - 1], is_trusted, now));
        lemma_insertable_allowed(p, before, is_repaired, is_trusted, now);
    }
}

/// The shreds of the first part of a batch may be handed in, and so may the next one.
pub proof fn lemma_steps_allowed_prefix(
    p: Progress,
    shreds: Seq<ShredView>,
    is_repaired: Seq<bool>,
    is_trusted: bool,
    now: u64,
    n: int,
)
    requires
        steps_allowed(p, shreds, is_repaired, is_trusted, now),
        0 <= n < shreds.len(),
    ensures
        step_allowed(
            batch_steps(p, shreds.take(n), is_repaired, is_trusted, now),
            shreds[n],
            is_repaired[n],
            is_trusted,
            now,
        ),
    decreases shreds.len(),
{
    let before = shreds.drop_last();
    if n < shreds.len() - 1 {
        lemma_steps_allowed_prefix(p, before, is_repaired, is_trusted, now, n);
        assert(before.take(n) =~= shreds.take(n));
    } else {
        assert(before =~= shreds.take(n));
    }
}

/// One shred of a batch leaves the ledger and the state sound.
pub proof fn lemma_batch_step_sound(
    p: Progress,
    shred: ShredView,
    is_repaired: bool,
    is_trusted: bool,
    now: u64,
    i: usize,
)
    requires
        step_allowed(p, shred, is_repaired, is_trusted, now),
        ledger_sound(p.store.ledger),
        state_sound(p.store.ledger, p.state),
    ensures
        ({
            let q = batch_step(p, shred, is_repaired, is_trusted, now, i);
            &&& same_but_duplicates(p.store.ledger, q.store.ledger)
            &&& ledger_sound(q.store.ledger)
            &&& state_sound(q.store.ledger, q.state)
        }),
{
    if shred.is_data() {
        let source = if is_repaired {
            ShredSource::Repaired
        } else {
            ShredSource::Turbine
        };
        lemma_data_step_sound(p.store, p.state, shred, is_trusted, source, now);
        let step = data_step(p.store, p.state, shred, is_trusted, source, now);
        let q = batch_step(p, shred, is_repaired, is_trusted, now, i);
        assert(q.state.slot_metas == step.state.slot_metas);
        assert(q.state.erasure_metas == step.state.erasure_metas);
        assert(q.state.indexes == step.state.indexes);
        assert(q.state.data_shreds == step.state.data_shreds);
        assert(state_sound(q.store.ledger, q.state));
    } else {
        lemma_code_step_sound(p.store, p.state, shred, is_trusted, is_repaired);
    }
}

/// A batch leaves the ledger and the state sound.
pub proof fn lemma_batch_steps_sound(
    p: Progress,
    shreds: Seq<ShredView>,
    is_repaired: Seq<bool>,
    is_trusted: bool,
    now: u64,
)
    requires
        steps_allowed(p, shreds, is_repaired, is_trusted, now),
        ledger_sound(p.store.ledger),
        state_sound(p.store.ledger, p.state),
    ensures
        ({
            let q = batch_steps(p, shreds, is_repaired, is_trusted, now);
            &&& same_but_duplicates(p.store.ledger, q.store.ledger)
            &&& ledger_sound(q.store.ledger)
            &&& state_sound(q.store.ledger, q.state)
        }),
    decreases shreds.len(),
{
    if shreds.len() > 0 {
        let before = shreds.drop_last();
        lemma_batch_steps_sound(p, before, is_repaired, is_trusted, now);
        let n = shreds.len() - 1;
        lemma_batch_step_sound(
            batch_steps(p, before, is_repaired, is_trusted, now),
            shreds.last(),
            is_repaired[n],
            is_trusted,
            now,
            n as usize,
        );
    }
}

/// A shred that was recovered, and what the signature check said of it. Where the leader of the
/// slot is not known, nothing could be checked.
pub struct RecoveredShred {
    pub shred: Shred,
    pub verified: Option<bool>,
}

/// The model of a `RecoveredShred`.
#[verifier::ext_equal]
pub struct RecoveredShredView {
    pub shred: ShredView,
    pub verified: Option<bool>,
}

impl View for RecoveredShred {
    type V = RecoveredShredView;

    open spec fn view(&self) -> RecoveredShredView {
        RecoveredShredView { shred: self.shred@, verified: self.verified }
    }
}

/// The models of the recovered shreds in a vector.
pub open spec fn recovered_views(shreds: Seq<RecoveredShred>) -> Seq<RecoveredShredView> {
    Seq::new(shreds.len(), |i: int| shreds[i]@)
}

/// A recovered shred is taken up: it is refused, or can be stored.
pub open spec fn taken_up(p: Progress, shred: ShredView, is_trusted: bool, now: u64) -> bool {
    data_allowed(p.store, p.state, shred, is_trusted, ShredSource::Recovered, now)
}

/// A recovered shred is handed in. One that would be inserted but cannot be stored is passed
/// over.
pub open spec fn recovered_step(
    p: Progress,
    recovered: RecoveredShredView,
    is_trusted: bool,
    now: u64,
) -> Progress {
    match recovered.verified {
        None => p,
        Some(false) => Progress {
            state: InsertionView {
                metrics: BlockstoreInsertionMetrics {
                    num_recovered_failed_sig: more(p.state.metrics.num_recovered_failed_sig, 1),
                    ..p.state.metrics
                },
                ..p.state
            },
            ..p
        },
        Some(true) => if !taken_up(p, recovered.shred, is_trusted, now) {
            p
        } else {
            let step = data_step(
                p.store,
                p.state,
                recovered.shred,
                is_trusted,
                ShredSource::Recovered,
                now,
            );
            let m = step.state.metrics;
            Progress {
                store: step.store,
                state: match step.result {
                    Err(InsertDataShredError::Exists) => InsertionView {
                        metrics: BlockstoreInsertionMetrics {
                            num_recovered_exists: more(m.num_recovered_exists, 1),
                            ..m
                        },
                        ..step.state
                    },
                    Err(InsertDataShredError::InvalidShred) => InsertionView {
                        metrics: BlockstoreInsertionMetrics {
                            num_recovered_failed_invalid: more(m.num_recovered_failed_invalid, 1),
                            ..m
                        },
                        ..step.state
                    },
                    Err(InsertDataShredError::BlockstoreError(_)) => InsertionView {
                        metrics: BlockstoreInsertionMetrics {
                            num_recovered_blockstore_error: more(
                                m.num_recovered_blockstore_error,
                                1,
                            ),
                            ..m
                        },
                        ..step.state
                    },
                    Ok(sets) => InsertionView {
                        completed_data_sets: step.state.completed_data_sets + sets,
                        retransmit: step.state.retransmit.push(recovered.shred),
                        metrics: BlockstoreInsertionMetrics {
                            num_recovered_inserted: more(m.num_recovered_inserted, 1),
                            ..m
                        },
                        ..step.state
                    },
                },
            }
        },
    }
}

/// Recovered shreds are handed in, one after the other.
pub open spec fn recovered_steps(
    p: Progress,
    recovered: Seq<RecoveredShredView>,
    is_trusted: bool,
    now: u64,
) -> Progress
    decreases recovered.len(),
{
    if recovered.len() == 0 {
        p
    } else {
        recovered_step(
            recovered_steps(p, recovered.drop_last(), is_trusted, now),
            recovered.last(),
            is_trusted,
            now,
        )
    }
}

/// Recovered shreds handed in after a batch.
pub open spec fn recovery_received(
    p: Progress,
    recovered: Seq<RecoveredShredView>,
    is_trusted: bool,
    now: u64,
) -> Progress {
    recovered_steps(
        Progress {
            state: InsertionView {
                metrics: BlockstoreInsertionMetrics {
                    num_recovered: more(p.state.metrics.num_recovered, recovered.len() as usize),
                    ..p.state.metrics
                },
                ..p.state
            },
            ..p
        },
        recovered,
        is_trusted,
        now,
    )
}

/// One recovered shred leaves the ledger and the state sound.
pub proof fn lemma_recovered_step_sound(
    p: Progress,
    recovered: RecoveredShredView,
    is_trusted: bool,
    now: u64,
)
    requires
        ledger_sound(p.store.ledger),
        state_sound(p.store.ledger, p.state),
    ensures
        ({
            let q = recovered_step(p, recovered, is_trusted, now);
            &&& same_but_duplicates(p.store.ledger, q.store.ledger)
            &&& ledger_sound(q.store.ledger)
            &&& state_sound(q.store.ledger, q.state)
        }),
{
    let q = recovered_step(p, recovered, is_trusted, now);
    if recovered.verified == Some(true) && taken_up(p, recovered.shred, is_trusted, now) {
        lemma_data_step_sound(
            p.store,
            p.state,
            recovered.shred,
            is_trusted,
            ShredSource::Recovered,
            now,
        );
        let step = data_step(
            p.store,
            p.state,
            recovered.shred,
            is_trusted,
            ShredSource::Recovered,
            now,
        );
        assert(q.state.slot_metas == step.state.slot_metas);
        assert(q.state.erasure_metas == step.state.erasure_metas);
        assert(q.state.indexes == step.state.indexes);
        assert(q.state.data_shreds == step.state.data_shreds);
        assert(state_sound(q.store.ledger, q.state));
    } else {
        assert(q.state.slot_metas == p.state.slot_metas);
        assert(q.state.erasure_metas == p.state.erasure_metas);
        assert(q.state.indexes == p.state.indexes);
        assert(q.state.data_shreds == p.state.data_shreds);
        assert(state_sound(q.store.ledger, q.state));
    }
}

/// Recovered shreds leave the ledger and the state sound.
pub proof fn lemma_recovered_steps_sound(
    p: Progress,
    recovered: Seq<RecoveredShredView>,
    is_trusted: bool,
    now: u64,
)
    requires
        ledger_sound(p.store.ledger),
        state_sound(p.store.ledger, p.state),
    ensures
        ({
            let q = recovered_steps(p, recovered, is_trusted, now);
            &&& same_but_duplicates(p.store.ledger, q.store.ledger)
            &&& ledger_sound(q.store.ledger)
            &&& state_sound(q.store.ledger, q.state)
        }),
    decreases recovered.len(),
{
    if recovered.len() > 0 {
        let before = recovered.drop_last();
        lemma_recovered_steps_sound(p, before, is_trusted, now);
        lemma_recovered_step_sound(
            recovered_steps(p, before, is_trusted, now),
            recovered.last(),
            is_trusted,
            now,
        );
    }
}

/// A write of each erasure set in `keys`.
pub open spec fn erasure_writes(
    metas: Map<SlotIndex, ErasureMeta>,
    keys: Seq<SlotIndex>,
) -> Seq<WriteOpView> {
    Seq::new(keys.len(), |i: int| WriteOpView::PutErasureMeta(keys[i], metas[keys[i]]))
}

/// A write of each index in `keys` that a shred was added to.
pub open spec fn index_writes(indexes: Map<u64, IndexEntryView>, keys: Seq<u64>) -> Seq<WriteOpView>
    decreases keys.len(),
{
    if keys.len() == 0 {
        Seq::empty()
    } else {
        let k = keys.last();
        let earlier = index_writes(indexes, keys.drop_last());
        if indexes[k].did_insert_occur {
            earlier.push(WriteOpView::PutIndex(k, indexes[k].index))
        } else {
            earlier
        }
    }
}

/// All writes of a batch: the shreds, the metadata touched by chaining, the metadata of the
/// batch that changed, the erasure sets and the indexes.
pub open spec fn batch_writes(ledger: LedgerView, state: InsertionView) -> Seq<WriteOpView> {
    let working = chained_batch(ledger, state.slot_metas).working;
    state.write_batch + chaining_writes(ledger, state.slot_metas) + changed_writes(
        working,
        ordered_keys(working),
    ) + erasure_writes(state.erasure_metas, ordered_keys(state.erasure_metas)) + index_writes(
        state.indexes,
        ordered_keys(state.indexes),
    )
}

/// What the caller learns of an inserted batch.
pub struct InsertionOutcome {
    /// The runs of entries that were completed.
    pub completed_data_sets: Vec<CompletedDataSetInfo>,
    /// The positions, in the batch, of the data shreds that were inserted.
    pub inserted_indices: Vec<usize>,
    /// The shreds that were there already.
    pub duplicates: Vec<Shred>,
    /// The recovered shreds that were inserted, to be sent on.
    pub retransmit: Vec<Shred>,
    pub full_slots: Vec<SlotFullReport>,
    /// Whether to signal that there are new shreds.
    pub should_signal: bool,
    /// The slots that have become full.
    pub newly_completed_slots: Vec<u64>,
    pub metrics: BlockstoreInsertionMetrics,
}

/// The model of an `InsertionOutcome`.
#[verifier::ext_equal]
pub struct InsertionOutcomeView {
    pub completed_data_sets: Seq<CompletedDataSetInfo>,
    pub inserted_indices: Seq<usize>,
    pub duplicates: Seq<ShredView>,
    pub retransmit: Seq<ShredView>,
    pub full_slots: Seq<SlotFullReport>,
    pub should_signal: bool,
    pub newly_completed_slots: Seq<u64>,
    pub metrics: BlockstoreInsertionMetrics,
}

impl View for InsertionOutcome {
    type V = InsertionOutcomeView;

    open spec fn view(&self) -> InsertionOutcomeView {
        InsertionOutcomeView {
            completed_data_sets: self.completed_data_sets@,
            inserted_indices: self.inserted_indices@,
            duplicates: shred_views(self.duplicates@),
            retransmit: shred_views(self.retransmit@),
            full_slots: self.full_slots@,
            should_signal: self.should_signal,
            newly_completed_slots: self.newly_completed_slots@,
            metrics: self.metrics,
        }
    }
}

/// What the caller learns of a batch that ended in `state`.
pub open spec fn batch_outcome(
    ledger: LedgerView,
    state: InsertionView,
    has_completed_slots_senders: bool,
) -> InsertionOutcomeView {
    let working = chained_batch(ledger, state.slot_metas).working;
    InsertionOutcomeView {
        completed_data_sets: state.completed_data_sets,
        inserted_indices: state.inserted_indices,
        duplicates: state.duplicates,
        retransmit: state.retransmit,
        full_slots: state.full_slots,
        should_signal: any_updates(working),
        newly_completed_slots: if has_completed_slots_senders {
            completed_slots(working, ordered_keys(working))
        } else {
            Seq::empty()
        },
        metrics: state.metrics,
    }
}

/// What chaining needs of a sound state.
pub proof fn lemma_sound_chains(ledger: LedgerView, state: InsertionView)
    requires
        ledger_sound(ledger),
        state_sound(ledger, state),
    ensures
        parents_below(state.slot_metas),
        parents_below(inserted_into(state.slot_metas)),
        children_above(
            ledger,
            ChainView { working: inserted_into(state.slot_metas), chained: Map::empty() },
        ),
{
    let c = ChainView {
        working: inserted_into(state.slot_metas),
        chained: Map::<u64, SlotMetaView>::empty(),
    };
    assert forall|k: u64| #[trigger] state.slot_metas.contains_key(k) && k != 0
        && state.slot_metas[k].new_slot_meta.parent_slot is Some implies
        state.slot_metas[k].new_slot_meta.parent_slot->0 < k by {
        assert(meta_sound(
            ledger,
            state.data_shreds,
            k,
            state.slot_metas[k].new_slot_meta,
        ));
    }
    assert forall|k: u64| #[trigger] c.working.contains_key(k) && k != 0
        && c.working[k].new_slot_meta.parent_slot is Some implies
        c.working[k].new_slot_meta.parent_slot->0 < k by {
        assert(state.slot_metas.contains_key(k));
    }
    assert forall|k: u64, i: int|
        0 <= i < effective_meta(ledger, c, k).next_slots.len() implies k < #[trigger] effective_meta(
        ledger,
        c,
        k,
    ).next_slots[i] by {
        let m = effective_meta(ledger, c, k);
        if c.working.contains_key(k) {
            assert(state.slot_metas.contains_key(k));
            assert(links_forward(k, m));
        } else if ledger.meta.contains_key(k) {
            assert(links_forward(k, m));
        }
    }
}

proof fn lemma_working_inserted(ledger: LedgerView, slot_metas: Map<u64, MetaEntryView>)
    requires
        orders(ordered_keys(inserted_into(slot_metas)), inserted_into(slot_metas)),
        parents_below(inserted_into(slot_metas)),
        children_above(
            ledger,
            ChainView { working: inserted_into(slot_metas), chained: Map::empty() },
        ),
    ensures
        forall|k: u64| #[trigger]
            chained_batch(ledger, slot_metas).working.contains_key(k) ==> chained_batch(
                ledger,
                slot_metas,
            ).working[k].did_insert_occur,
{
    let kept = inserted_into(slot_metas);
    let c = ChainView { working: kept, chained: Map::<u64, SlotMetaView>::empty() };
    let ks = ordered_keys(kept);
    assert forall|i: int| 0 <= i < ks.len() implies kept.contains_key(#[trigger] ks[i]) by {
        assert(ks.contains(ks[i]));
    }
    lemma_chained_slots_forward(ledger, c, ks);
    let w = chained_batch(ledger, slot_metas).working;
    assert forall|k: u64| #[trigger] w.contains_key(k) implies w[k].did_insert_occur by {
        assert(w.dom().contains(k));
        assert(kept.contains_key(k));
    }
}

proof fn lemma_orphan_writes_in_range(ledger: LedgerView, c: ChainView, keys: Seq<u64>)
    ensures
        all_in_range(orphan_writes_of(ledger, c, keys)),
    decreases keys.len(),
{
    if keys.len() > 0 {
        lemma_orphan_writes_in_range(ledger, c, keys.drop_last());
    }
}

proof fn lemma_changed_writes_in_range(working: Map<u64, MetaEntryView>, keys: Seq<u64>)
    ensures
        all_in_range(changed_writes(working, keys)),
    decreases keys.len(),
{
    if keys.len() > 0 {
        lemma_changed_writes_in_range(working, keys.drop_last());
    }
}

proof fn lemma_index_writes_in_range(indexes: Map<u64, IndexEntryView>, keys: Seq<u64>)
    ensures
        all_in_range(index_writes(indexes, keys)),
    decreases keys.len(),
{
    if keys.len() > 0 {
        lemma_index_writes_in_range(indexes, keys.drop_last());
    }
}

proof fn lemma_batch_writes_in_range(ledger: LedgerView, state: InsertionView)
    requires
        all_in_range(state.write_batch),
    ensures
        all_in_range(batch_writes(ledger, state)),
{
    let kept = inserted_into(state.slot_metas);
    let working = chained_batch(ledger, state.slot_metas).working;
    lemma_orphan_writes_in_range(
        ledger,
        ChainView { working: kept, chained: Map::empty() },
        ordered_keys(kept),
    );
    lemma_changed_writes_in_range(working, ordered_keys(working));
    lemma_index_writes_in_range(state.indexes, ordered_keys(state.indexes));
}

impl Blockstore {
    /// Hands in the shred at position `at` of a batch.
    pub fn receive_shred(
        &mut self,
        state: &mut InsertionState,
        shred: Shred,
        is_repaired: bool,
        is_trusted: bool,
        now: u64,
        at: usize,
    )
        requires
            step_allowed(
                Progress { store: old(self)@, state: old(state)@ },
                shred@,
                is_repaired,
                is_trusted,
                now,
            ),
            ledger_sound(old(self)@.ledger),
            state_sound(old(self)@.ledger, old(state)@),
        ensures
            (Progress { store: final(self)@, state: final(state)@ }) == batch_step(
                Progress { store: old(self)@, state: old(state)@ },
                shred@,
                is_repaired,
                is_trusted,
                now,
                at,
            ),
            same_but_duplicates(old(self)@.ledger, final(self)@.ledger),
            ledger_sound(final(self)@.ledger),
            state_sound(final(self)@.ledger, final(state)@),
    {
        let ghost view = shred@;
        let ghost p = Progress { store: self@, state: state@ };
        proof {
            lemma_batch_step_sound(p, view, is_repaired, is_trusted, now, at);
        }
        if shred.is_data() {
            let shred_source = if is_repaired {
                ShredSource::Repaired
            } else {
                ShredSource::Turbine
            };
            proof {
                lemma_data_step_sound(p.store, p.state, view, is_trusted, shred_source, now);
            }
            match self.check_insert_data_shred(shred, state, is_trusted, shred_source, now) {
                Err(InsertDataShredError::Exists) => {
                    state.metrics.num_data_shreds_exists = bump(
                        state.metrics.num_data_shreds_exists,
                        1,
                    );
                },
                Err(InsertDataShredError::InvalidShred) => {
                    state.metrics.num_data_shreds_invalid = bump(
                        state.metrics.num_data_shreds_invalid,
                        1,
                    );
                },
                Err(InsertDataShredError::BlockstoreError(_)) => {
                    state.metrics.num_data_shreds_blockstore_error = bump(
                        state.metrics.num_data_shreds_blockstore_error,
                        1,
                    );
                },
                Ok(completed_data_sets) => {
                    append_sets(&mut state.completed_data_sets, &completed_data_sets);
                    state.inserted_indices.push(at);
                    state.metrics.num_inserted = bump_u64(state.metrics.num_inserted);
                },
            }
        } else {
            let _ = self.check_insert_coding_shred(shred, state, is_trusted, is_repaired);
        }
    }

    /// Hands in a batch of shreds, each with whether it was repaired. Nothing is written yet,
    /// but for proofs that a slot has two versions. Trusted shreds are not checked. `now` is in
    /// milliseconds.
    pub fn receive_shreds(
        &mut self,
        shreds: Vec<Shred>,
        is_repaired: &Vec<bool>,
        is_trusted: bool,
        now: u64,
        metrics: BlockstoreInsertionMetrics,
    ) -> (result: InsertionState)
        requires
            shreds@.len() == is_repaired@.len(),
            batch_allowed(
                old(self)@,
                shred_views(shreds@),
                is_repaired@,
                is_trusted,
                now,
                metrics,
            ),
            ledger_sound(old(self)@.ledger),
        ensures
            ({
                let p = batch_received(
                    old(self)@,
                    shred_views(shreds@),
                    is_repaired@,
                    is_trusted,
                    now,
                    metrics,
                );
                &&& final(self)@ == p.store
                &&& result@ == p.state
            }),
            same_but_duplicates(old(self)@.ledger, final(self)@.ledger),
            ledger_sound(final(self)@.ledger),
            state_sound(final(self)@.ledger, result@),
    {
        let n: usize = shreds.len();
        let ghost views = shred_views(shreds@);
        let mut counters = metrics;
        counters.num_shreds = bump(metrics.num_shreds, n);
        let mut state = InsertionState::new(counters);
        let ghost p0 = Progress { store: self@, state: state@ };
        proof {
            lemma_start_sound(self@.ledger, counters);
            assert(views.take(0) =~= Seq::empty());
        }
        let mut i: usize = 0;
        while i < n
            invariant
                0 <= i <= n,
                n == shreds@.len(),
                n == is_repaired@.len(),
                views == shred_views(shreds@),
                steps_allowed(p0, views, is_repaired@, is_trusted, now),
                ledger_sound(p0.store.ledger),
                state_sound(p0.store.ledger, p0.state),
                (Progress { store: self@, state: state@ }) == batch_steps(
                    p0,
                    views.take(i as int),
                    is_repaired@,
                    is_trusted,
                    now,
                ),
                same_but_duplicates(p0.store.ledger, self@.ledger),
                ledger_sound(self@.ledger),
                state_sound(self@.ledger, state@),
            decreases n - i,
        {
            let shred = shreds[i].duplicate();
            let ghost view = shred@;
            proof {
                assert(view == views[i as int]);
                assert(views.take(i + 1).drop_last() =~= views.take(i as int));
                assert(views.take(i + 1).last() == view);
                lemma_steps_allowed_prefix(
                    p0,
                    views,
                    is_repaired@,
                    is_trusted,
                    now,
                    i as int,
                );
            }
            self.receive_shred(&mut state, shred, is_repaired[i], is_trusted, now, i);
            i += 1;
        }
        assert(views.take(n as int) =~= views);
        state
    }

    /// Hands in recovered shreds, each with what the signature check said of it. Those that
    /// would be inserted but cannot be stored are passed over.
    pub fn receive_recovered_shreds(
        &mut self,
        state: &mut InsertionState,
        recovered: Vec<RecoveredShred>,
        is_trusted: bool,
        now: u64,
    )
        requires
            ledger_sound(old(self)@.ledger),
            state_sound(old(self)@.ledger, old(state)@),
        ensures
            (Progress { store: final(self)@, state: final(state)@ }) == recovery_received(
                Progress { store: old(self)@, state: old(state)@ },
                recovered_views(recovered@),
                is_trusted,
                now,
            ),
            same_but_duplicates(old(self)@.ledger, final(self)@.ledger),
            ledger_sound(final(self)@.ledger),
            state_sound(final(self)@.ledger, final(state)@),
    {
        let n: usize = recovered.len();
        let ghost views = recovered_views(recovered@);
        let ghost state1 = state@;
        state.metrics.num_recovered = bump(state.metrics.num_recovered, n);
        let ghost p0 = Progress { store: self@, state: state@ };
        proof {
            assert(views.take(0) =~= Seq::empty());
            assert(state_sound(self@.ledger, state@)) by {
                assert(state@.slot_metas == state1.slot_metas);
                assert(state@.data_shreds == state1.data_shreds);
                assert(state@.erasure_metas == state1.erasure_metas);
                assert(state@.indexes == state1.indexes);
            }
        }
        let mut i: usize = 0;
        while i < n
            invariant
                0 <= i <= n,
                n == recovered@.len(),
                views == recovered_views(recovered@),
                (Progress { store: self@, state: state@ }) == recovered_steps(
                    p0,
                    views.take(i as int),
                    is_trusted,
                    now,
                ),
                same_but_duplicates(p0.store.ledger, self@.ledger),
                ledger_sound(self@.ledger),
                state_sound(self@.ledger, state@),
            decreases n - i,
        {
            let shred = recovered[i].shred.duplicate();
            let ghost view = views[i as int];
            let ghost p = Progress { store: self@, state: state@ };
            proof {
                assert(shred@ == view.shred);
                assert(views.take(i + 1).drop_last() =~= views.take(i as int));
                assert(views.take(i + 1).last() == view);
                lemma_recovered_step_sound(p, view, is_trusted, now);
            }
            match recovered[i].verified {
                None => {},
                Some(verified) => {
                    if !verified {
                        state.metrics.num_recovered_failed_sig = bump(
                            state.metrics.num_recovered_failed_sig,
                            1,
                        );
                    } else if self.is_data_allowed(
                        state,
                        &shred,
                        is_trusted,
                        ShredSource::Recovered,
                        now,
                    ) {
                        let copy = shred.duplicate();
                        proof {
                            lemma_data_step_sound(
                                p.store,
                                p.state,
                                view.shred,
                                is_trusted,
                                ShredSource::Recovered,
                                now,
                            );
                        }
                        match self.check_insert_data_shred(
                            shred,
                            state,
                            is_trusted,
                            ShredSource::Recovered,
                            now,
                        ) {
                            Err(InsertDataShredError::Exists) => {
                                state.metrics.num_recovered_exists = bump(
                                    state.metrics.num_recovered_exists,
                                    1,
                                );
                            },
                            Err(InsertDataShredError::InvalidShred) => {
                                state.metrics.num_recovered_failed_invalid = bump(
                                    state.metrics.num_recovered_failed_invalid,
                                    1,
                                );
                            },
                            Err(InsertDataShredError::BlockstoreError(_)) => {
                                state.metrics.num_recovered_blockstore_error = bump(
                                    state.metrics.num_recovered_blockstore_error,
                                    1,
                                );
                            },
                            Ok(completed_data_sets) => {
                                append_sets(&mut state.completed_data_sets, &completed_data_sets);
                                state.metrics.num_recovered_inserted = bump(
                                    state.metrics.num_recovered_inserted,
                                    1,
                                );
                                let ghost sent = shred_views(state.retransmit@);
                                state.retransmit.push(copy);
                                assert(shred_views(state.retransmit@) =~= sent.push(copy@));
                            },
                        }
                    }
                },
            }
            i += 1;
        }
        assert(views.take(n as int) =~= views);
    }

    /// Chains the slots of a batch and writes all that changed, in one write.
    pub fn commit_insertion(
        &mut self,
        state: InsertionState,
        has_completed_slots_senders: bool,
    ) -> (result: InsertionOutcome)
        requires
            ledger_sound(old(self)@.ledger),
            state_sound(old(self)@.ledger, state@),
        ensures
            final(self)@ == old(self)@.commit(batch_writes(old(self)@.ledger, state@)),
            result@ == batch_outcome(old(self)@.ledger, state@, has_completed_slots_senders),
            orders(
                ordered_keys(inserted_into(state@.slot_metas)),
                inserted_into(state@.slot_metas),
            ),
            tracks(old(self)@.ledger, state@) ==> batch_result(
                old(self)@.ledger,
                state@,
                final(self)@.ledger,
            ) && final(self)@.ledger.code_shreds == old(self)@.ledger.apply_all(
                state@.write_batch,
            ).code_shreds,
    {
        let ghost ledger = self@.ledger;
        let ghost state0 = state@;
        let mut slot_metas = state.slot_metas;
        let mut write_batch = state.write_batch;
        proof {
            lemma_sound_chains(ledger, state0);
        }
        handle_chaining(&self.ledger, &mut write_batch, &mut slot_metas);
        let ghost working = slot_metas@;
        proof {
            lemma_working_inserted(ledger, state0.slot_metas);
        }
        let (should_signal, newly_completed_slots) = commit_slot_meta_working_set(
            &slot_metas,
            has_completed_slots_senders,
            &mut write_batch,
        );
        push_erasure_writes(&state.erasure_metas, &mut write_batch);
        push_index_writes(&state.indexes, &mut write_batch);
        proof {
            let all = batch_writes(ledger, state0);
            assert(op_views(write_batch@) =~= all);
            if tracks(ledger, state0) {
                lemma_batch_result(ledger, state0);
            }
            lemma_batch_writes_in_range(ledger, state0);
            assert forall|i: int| 0 <= i < write_batch@.len() implies op_in_range(
                #[trigger] write_batch@[i]@,
            ) by {
                assert(all[i] == write_batch@[i]@);
            }
        }
        self.commit(write_batch);
        InsertionOutcome {
            completed_data_sets: state.completed_data_sets,
            inserted_indices: state.inserted_indices,
            duplicates: state.duplicates,
            retransmit: state.retransmit,
            full_slots: state.full_slots,
            should_signal,
            newly_completed_slots,
            metrics: state.metrics,
        }
    }
}

fn append_sets(to: &mut Vec<CompletedDataSetInfo>, from: &Vec<CompletedDataSetInfo>)
    ensures
        final(to)@ == old(to)@ + from@,
{
    let mut i: usize = 0;
    assert(to@ =~= old(to)@ + from@.take(0));
    while i < from.len()
        invariant
            0 <= i <= from@.len(),
            to@ == old(to)@ + from@.take(i as int),
        decreases from@.len() - i,
    {
        to.push(from[i]);
        assert(to@ =~= old(to)@ + from@.take(i + 1));
        i += 1;
    }
    assert(from@.take(from@.len() as int) =~= from@);
}

fn push_erasure_writes(metas: &Column<SlotIndex, ErasureMeta>, write_batch: &mut Vec<WriteOp>)
    ensures
        orders(ordered_keys(metas@), metas@),
        op_views(final(write_batch)@) == op_views(old(write_batch)@) + erasure_writes(
            metas@,
            ordered_keys(metas@),
        ),
{
    let n: usize = metas.len();
    let ghost ks = ordered_keys(metas@);
    let ghost all = erasure_writes(metas@, ks);
    let ghost ops0 = op_views(write_batch@);
    let mut i: usize = 0;
    assert(ops0 + all.take(0) =~= ops0);
    while i < n
        invariant
            0 <= i <= n,
            n == ks.len(),
            ks == ordered_keys(metas@),
            all == erasure_writes(metas@, ks),
            op_views(write_batch@) == ops0 + all.take(i as int),
        decreases n - i,
    {
        let ghost ops = op_views(write_batch@);
        write_batch.push(WriteOp::PutErasureMeta(metas.key_at(i), *metas.value_at(i)));
        proof {
            assert(op_views(write_batch@) =~= ops.push(all[i as int]));
            assert(op_views(write_batch@) =~= ops0 + all.take(i + 1));
        }
        i += 1;
    }
    assert(all.take(n as int) =~= all);
}

fn push_index_writes(
    indexes: &Column<u64, IndexMetaWorkingSetEntry>,
    write_batch: &mut Vec<WriteOp>,
)
    ensures
        orders(ordered_keys(indexes@), indexes@),
        op_views(final(write_batch)@) == op_views(old(write_batch)@) + index_writes(
            indexes@,
            ordered_keys(indexes@),
        ),
{
    let n: usize = indexes.len();
    let ghost ks = ordered_keys(indexes@);
    let ghost ops0 = op_views(write_batch@);
    let mut i: usize = 0;
    proof {
        assert(ks.take(0) =~= Seq::empty());
        assert(ops0 + index_writes(indexes@, ks.take(0)) =~= ops0);
    }
    while i < n
        invariant
            0 <= i <= n,
            n == ks.len(),
            ks == ordered_keys(indexes@),
            op_views(write_batch@) == ops0 + index_writes(indexes@, ks.take(i as int)),
        decreases n - i,
    {
        let slot: u64 = indexes.key_at(i);
        let entry = indexes.value_at(i);
        let ghost ops = op_views(write_batch@);
        proof {
            assert(ks.take(i + 1).drop_last() =~= ks.take(i as int));
            assert(ks.take(i + 1).last() == slot);
        }
        if entry.did_insert_occur {
            write_batch.push(WriteOp::PutIndex(slot, entry.index.duplicate()));
            assert(op_views(write_batch@) =~= ops.push(WriteOpView::PutIndex(slot, entry.index@)));
        }
        assert(op_views(write_batch@) =~= ops0 + index_writes(indexes@, ks.take(i + 1)));
        i += 1;
    }
    assert(ks.take(n as int) =~= ks);
}

} // verus!
