//! What is counted while shreds are inserted.

use vstd::prelude::*;
use crate::batch::{
    batch_allowed, batch_received, batch_start, batch_step, batch_steps, ledger_sound,
    lemma_batch_steps_sound, lemma_start_sound, recovered_step, recovered_steps, recovery_received,
    Progress, RecoveredShredView,
};
use crate::blockstore::BlockstoreView;
use crate::chaining::{chained_batch, effective_meta, inserted_into, ChainView};
use crate::column::lemma_finite_orders;
use crate::insert::{batch_inserted, ledger_result};
use crate::insert_laws::{belongs, lemma_one_shred};
use crate::insertion::InsertionView;
use crate::integrity::{frame, lemma_chained_batch_frames};
use crate::ledger::LedgerView;
use crate::meta::SlotMetaView;
use crate::metrics::BlockstoreInsertionMetrics;
use crate::shred::{ShredType, ShredView};
use crate::types::Slot;

verus! {

/// How many of some shreds are data shreds.
pub open spec fn data_among(shreds: Seq<ShredView>) -> nat
    decreases shreds.len(),
{
    if shreds.len() == 0 {
        0
    } else {
        data_among(shreds.drop_last()) + if shreds.last().common_header.shred_type
            == ShredType::Data {
            1nat
        } else {
            0nat
        }
    }
}

/// How many of some recovered shreds have a signature that was found bad.
pub open spec fn bad_among(recovered: Seq<RecoveredShredView>) -> nat
    decreases recovered.len(),
{
    if recovered.len() == 0 {
        0
    } else {
        bad_among(recovered.drop_last()) + if recovered.last().verified == Some(false) {
            1nat
        } else {
            0nat
        }
    }
}

/// `n` can be added to every counter of what happened to shreds.
pub open spec fn has_room(m: BlockstoreInsertionMetrics, n: int) -> bool {
    &&& m.num_inserted + n <= u64::MAX
    &&& m.num_recovered_inserted + n <= usize::MAX
    &&& m.num_recovered_failed_sig + n <= usize::MAX
    &&& m.num_recovered_failed_invalid + n <= usize::MAX
    &&& m.num_recovered_exists + n <= usize::MAX
    &&& m.num_data_shreds_exists + n <= usize::MAX
    &&& m.num_data_shreds_invalid + n <= usize::MAX
    &&& m.num_coding_shreds_exists + n <= usize::MAX
    &&& m.num_coding_shreds_invalid + n <= usize::MAX
    &&& m.num_coding_shreds_invalid_erasure_config + n <= usize::MAX
    &&& m.num_coding_shreds_inserted + n <= usize::MAX
}

/// The shreds of a batch have been counted, `n` of which `d` are data shreds: each once, as
/// inserted, as there already, or as refused.
pub open spec fn batch_counted(
    before: BlockstoreInsertionMetrics,
    after: BlockstoreInsertionMetrics,
    num_positions: nat,
    num_duplicates: nat,
    n: nat,
    d: nat,
) -> bool {
    let inserted = after.num_inserted - before.num_inserted;
    let there = after.num_data_shreds_exists - before.num_data_shreds_exists;
    let refused = after.num_data_shreds_invalid - before.num_data_shreds_invalid;
    let coding_there = after.num_coding_shreds_exists - before.num_coding_shreds_exists;
    let coding_refused = after.num_coding_shreds_invalid - before.num_coding_shreds_invalid;
    let coding_unfit = after.num_coding_shreds_invalid_erasure_config
        - before.num_coding_shreds_invalid_erasure_config;
    let coding_new = after.num_coding_shreds_inserted - before.num_coding_shreds_inserted;
    &&& 0 <= there
    &&& 0 <= refused
    &&& 0 <= coding_there
    &&& 0 <= coding_refused
    &&& 0 <= coding_unfit
    &&& 0 <= coding_new <= inserted - num_positions
    &&& num_positions + there + refused == d
    &&& inserted + there + refused + coding_there + coding_refused + coding_unfit == n
    &&& num_duplicates == there + coding_there
    &&& after == BlockstoreInsertionMetrics {
        num_inserted: after.num_inserted,
        num_data_shreds_exists: after.num_data_shreds_exists,
        num_data_shreds_invalid: after.num_data_shreds_invalid,
        num_coding_shreds_exists: after.num_coding_shreds_exists,
        num_coding_shreds_invalid: after.num_coding_shreds_invalid,
        num_coding_shreds_invalid_erasure_config: after.num_coding_shreds_invalid_erasure_config,
        num_coding_shreds_inserted: after.num_coding_shreds_inserted,
        ..before
    }
}

proof fn lemma_batch_counted(
    p0: Progress,
    shreds: Seq<ShredView>,
    is_repaired: Seq<bool>,
    is_trusted: bool,
    now: u64,
)
    requires
        has_room(p0.state.metrics, shreds.len() as int),
        p0.state.inserted_indices.len() == 0,
        p0.state.duplicates.len() == 0,
    ensures
        ({
            let st = batch_steps(p0, shreds, is_repaired, is_trusted, now).state;
            &&& batch_counted(
                p0.state.metrics,
                st.metrics,
                st.inserted_indices.len(),
                st.duplicates.len(),
                shreds.len(),
                data_among(shreds),
            )
            &&& st.retransmit == p0.state.retransmit
        }),
    decreases shreds.len(),
{
    if shreds.len() > 0 {
        let before = shreds.drop_last();
        let n = shreds.len() - 1;
        lemma_batch_counted(p0, before, is_repaired, is_trusted, now);
        let p = batch_steps(p0, before, is_repaired, is_trusted, now);
        let q = batch_step(p, shreds.last(), is_repaired[n], is_trusted, now, n as usize);
        assert(q == batch_steps(p0, shreds, is_repaired, is_trusted, now));
    }
}

/// Every shred of a batch is counted once: a data shred as inserted, as there already, or as
/// invalid; a coding shred as inserted, as there already, as invalid, or as one that does not fit
/// its erasure set. As many data shreds are given as inserted by their position, and as many
/// shreds are handed back as were there already. No other counter changes, but that of the shreds
/// that came.
pub proof fn law_every_shred_is_counted(
    store: BlockstoreView,
    shreds: Seq<ShredView>,
    is_repaired: Seq<bool>,
    is_trusted: bool,
    now: u64,
    metrics: BlockstoreInsertionMetrics,
)
    requires
        has_room(metrics, shreds.len() as int),
        metrics.num_shreds + shreds.len() <= usize::MAX,
    ensures
        ({
            let st = batch_received(store, shreds, is_repaired, is_trusted, now, metrics).state;
            batch_counted(
                BlockstoreInsertionMetrics {
                    num_shreds: (metrics.num_shreds + shreds.len()) as usize,
                    ..metrics
                },
                st.metrics,
                st.inserted_indices.len(),
                st.duplicates.len(),
                shreds.len(),
                data_among(shreds),
            )
        }),
{
    let p0 = Progress { store, state: batch_start(metrics, shreds.len() as usize) };
    lemma_batch_counted(p0, shreds, is_repaired, is_trusted, now);
}

/// Recovered shreds have been counted: those with a bad signature, and of the others each at most
/// once, as inserted, as there already, or as invalid.
pub open spec fn recovery_counted(
    before: BlockstoreInsertionMetrics,
    after: BlockstoreInsertionMetrics,
    num_sent_on: int,
    num_duplicates: int,
    bad: nat,
    n: nat,
) -> bool {
    let inserted = after.num_recovered_inserted - before.num_recovered_inserted;
    let there = after.num_recovered_exists - before.num_recovered_exists;
    let refused = after.num_recovered_failed_invalid - before.num_recovered_failed_invalid;
    let failed = after.num_recovered_failed_sig - before.num_recovered_failed_sig;
    &&& inserted == num_sent_on
    &&& there == num_duplicates
    &&& 0 <= there
    &&& 0 <= refused
    &&& 0 <= inserted
    &&& failed == bad
    &&& inserted + there + refused + failed <= n
    &&& after == BlockstoreInsertionMetrics {
        num_recovered_inserted: after.num_recovered_inserted,
        num_recovered_exists: after.num_recovered_exists,
        num_recovered_failed_invalid: after.num_recovered_failed_invalid,
        num_recovered_failed_sig: after.num_recovered_failed_sig,
        ..before
    }
}

proof fn lemma_recovery_counted(
    p0: Progress,
    recovered: Seq<RecoveredShredView>,
    is_trusted: bool,
    now: u64,
)
    requires
        has_room(p0.state.metrics, recovered.len() as int),
    ensures
        ({
            let st = recovered_steps(p0, recovered, is_trusted, now).state;
            &&& recovery_counted(
                p0.state.metrics,
                st.metrics,
                st.retransmit.len() - p0.state.retransmit.len(),
                st.duplicates.len() - p0.state.duplicates.len(),
                bad_among(recovered),
                recovered.len(),
            )
            &&& st.inserted_indices == p0.state.inserted_indices
        }),
    decreases recovered.len(),
{
    if recovered.len() > 0 {
        let before = recovered.drop_last();
        lemma_recovery_counted(p0, before, is_trusted, now);
        let p = recovered_steps(p0, before, is_trusted, now);
        let q = recovered_step(p, recovered.last(), is_trusted, now);
        assert(q == recovered_steps(p0, recovered, is_trusted, now));
    }
}

/// The recovered shreds are counted, and of these those with a bad signature, those that were
/// inserted, which are those that are sent on, those that were there already, and those that are
/// invalid. The counters of the batch stay what they are.
pub proof fn law_recovered_shreds_are_counted(
    p: Progress,
    recovered: Seq<RecoveredShredView>,
    is_trusted: bool,
    now: u64,
)
    requires
        has_room(p.state.metrics, recovered.len() as int),
        p.state.metrics.num_recovered + recovered.len() <= usize::MAX,
    ensures
        ({
            let st = recovery_received(p, recovered, is_trusted, now).state;
            recovery_counted(
                BlockstoreInsertionMetrics {
                    num_recovered: (p.state.metrics.num_recovered + recovered.len()) as usize,
                    ..p.state.metrics
                },
                st.metrics,
                st.retransmit.len() - p.state.retransmit.len(),
                st.duplicates.len() - p.state.duplicates.len(),
                bad_among(recovered),
                recovered.len(),
            )
        }),
{
    let m = BlockstoreInsertionMetrics {
        num_recovered: (p.state.metrics.num_recovered + recovered.len()) as usize,
        ..p.state.metrics
    };
    let p0 = Progress {
        state: InsertionView { metrics: m, ..p.state },
        ..p
    };
    assert(recovery_received(p, recovered, is_trusted, now) == recovered_steps(
        p0,
        recovered,
        is_trusted,
        now,
    ));
    lemma_recovery_counted(p0, recovered, is_trusted, now);
}

/// How many shreds of a slot were repaired, and how many recovered, as far as the store knows.
pub open spec fn noted_of(store: BlockstoreView, slot: Slot) -> (int, int) {
    if store.slots_stats.contains_key(slot) {
        (
            store.slots_stats[slot].num_repaired as int,
            store.slots_stats[slot].num_recovered as int,
        )
    } else {
        (0, 0)
    }
}

/// A checked data shred that fills its slot has the slot reported, with when its first shred came,
/// its last index, and how many of its shreds were repaired, this one included, and recovered. The
/// slot's numbers are then forgotten, and, if that was last done more than 30 seconds ago, those of
/// the slots below the last root too. Without that, a repaired shred is counted for its slot, no
/// slot is reported, and nothing is forgotten.
pub proof fn law_full_slot_is_reported(
    store: BlockstoreView,
    shred: ShredView,
    is_repaired: bool,
    now: u64,
    metrics: BlockstoreInsertionMetrics,
    has_completed_slots_senders: bool,
    after: LedgerView,
)
    requires
        shred.common_header.shred_type == ShredType::Data,
        belongs(store, shred),
        batch_allowed(store, seq![shred], seq![is_repaired], false, now, metrics),
        ledger_sound(store.ledger),
        ledger_result(
            store,
            after,
            seq![shred],
            seq![is_repaired],
            false,
            now,
            metrics,
            None,
        ),
        noted_of(store, after.meta[shred.common_header.slot].slot).0 < usize::MAX,
    ensures
        ({
            let meta = after.meta[shred.common_header.slot];
            let slot = meta.slot;
            let (repaired, recovered) = noted_of(store, slot);
            let is_full = meta.last_index is Some && meta.consumed == meta.last_index->0 + 1;
            let (stored, outcome) = batch_inserted(
                store,
                seq![shred],
                seq![is_repaired],
                false,
                now,
                metrics,
                None,
                has_completed_slots_senders,
            );
            let repaired_now = if is_repaired {
                repaired + 1
            } else {
                repaired
            };
            let had_numbers = is_repaired || store.slots_stats.contains_key(slot);
            let forgets_more = is_full && had_numbers && (now - store.last_stats_cleanup) / 1000
                > 30;
            &&& is_full ==> {
                &&& outcome.full_slots.len() == 1
                &&& outcome.full_slots[0].slot == slot
                &&& outcome.full_slots[0].first_shred_timestamp == meta.first_shred_timestamp
                &&& meta.last_index->0 <= i64::MAX ==> outcome.full_slots[0].last_index
                    == meta.last_index->0
                &&& outcome.full_slots[0].num_repaired == repaired_now
                &&& outcome.full_slots[0].num_recovered == recovered
                &&& !stored.slots_stats.contains_key(slot)
            }
            &&& !is_full ==> {
                &&& outcome.full_slots.len() == 0
                &&& stored.slots_stats.contains_key(slot) == had_numbers
                &&& noted_of(stored, slot) == (repaired_now, recovered)
            }
            &&& forall|s: Slot|
                s != slot ==> (#[trigger] stored.slots_stats.contains_key(s)
                    <==> store.slots_stats.contains_key(s) && !(forgets_more && s
                    < store.last_root))
            &&& forall|s: Slot| #[trigger]
                stored.slots_stats.contains_key(s) && s != slot ==> stored.slots_stats[s]
                    == store.slots_stats[s]
            &&& stored.last_stats_cleanup == if forgets_more {
                now
            } else {
                store.last_stats_cleanup
            }
            &&& stored.last_root == store.last_root
            &&& stored.lowest_cleanup_slot == store.lowest_cleanup_slot
            &&& stored.active_transaction_status_index == store.active_transaction_status_index
        }),
{
    lemma_one_shred(store, shred, is_repaired, false, now, metrics);
    let slot = shred.common_header.slot;
    let ledger = store.ledger;
    let p0 = Progress { store, state: batch_start(metrics, 1) };
    let p = batch_step(p0, shred, is_repaired, false, now, 0);
    let kept = inserted_into(p.state.slot_metas);
    lemma_start_sound(ledger, p0.state.metrics);
    lemma_batch_steps_sound(p0, seq![shred], seq![is_repaired], false, now);
    assert(p.store.ledger.meta == ledger.meta);
    assert(kept.contains_key(slot));
    assert(kept.dom() =~= Set::empty().insert(slot));
    lemma_finite_orders(kept);
    lemma_chained_batch_frames(p.store.ledger, p.state.slot_metas);
    let a = ChainView { working: kept, chained: Map::<u64, SlotMetaView>::empty() };
    let c = chained_batch(p.store.ledger, p.state.slot_metas);
    assert(a.working.dom() == c.working.dom());
    assert(c.working.dom().contains(slot));
    assert(after.meta[slot] == effective_meta(p.store.ledger, c, slot));
    assert(frame(after.meta[slot]) == frame(kept[slot].new_slot_meta));
}

} // verus!
