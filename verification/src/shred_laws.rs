//! An accepted data shred is kept as it was sent, and the last one accepted is what is read.

use vstd::prelude::*;
use crate::batch::{
    batch_allowed, batch_start, batch_step, batch_steps, ledger_sound, lemma_batch_steps_sound,
    lemma_recovered_steps_sound, lemma_start_sound, recovered_step, recovered_steps,
    same_but_duplicates, source_of, step_allowed, steps_allowed, taken_up, Progress,
    RecoveredShredView,
};
use crate::blockstore::BlockstoreView;
use crate::column::SlotIndex;
use crate::consistency::{
    consistent, lemma_batch_steps_kept, lemma_recovered_steps_kept, lemma_start_consistent,
    progress_kept,
};
use crate::insert::{all_received, batch_inserted, ledger_result};
use crate::insertion::{
    data_allowed, data_step, filled, has_data, index_entry, shred_key, InsertionView, ShredSource,
};
use crate::integrity::{lemma_start_tracks, overlay, stored_shreds};
use crate::ledger::LedgerView;
use crate::metrics::{more, BlockstoreInsertionMetrics};
use crate::shred::{ShredView, SHRED_PAYLOAD_SIZE};

verus! {

/// The shred is one of those of a batch whose positions are given as inserted, or one of those
/// that were recovered and are to be sent on.
pub open spec fn accepted(
    shreds: Seq<ShredView>,
    inserted_indices: Seq<usize>,
    retransmit: Seq<ShredView>,
    shred: ShredView,
) -> bool {
    ||| exists|x: int|
        0 <= x < inserted_indices.len() && (#[trigger] inserted_indices[x]) < shreds.len()
            && shreds[inserted_indices[x] as int] == shred
    ||| retransmit.contains(shred)
}

/// A shred was accepted for a key.
pub open spec fn accepted_at(
    shreds: Seq<ShredView>,
    inserted_indices: Seq<usize>,
    retransmit: Seq<ShredView>,
    k: SlotIndex,
) -> bool {
    exists|shred: ShredView| #[trigger]
        accepted(shreds, inserted_indices, retransmit, shred) && shred_key(shred) == k
}

/// The data shreds of an insertion are the accepted ones, each at its key, where the ledger had
/// none.
spec fn all_new(ledger: LedgerView, shreds: Seq<ShredView>, st: InsertionView) -> bool {
    &&& forall|k: SlotIndex| #[trigger]
        st.data_shreds.contains_key(k) ==> {
            let shred = st.data_shreds[k];
            &&& !ledger.data_shreds.contains_key(k)
            &&& shred_key(shred) == k
            &&& accepted(shreds, st.inserted_indices, st.retransmit, shred)
            &&& shred.data_header.size <= shred.payload.len() <= SHRED_PAYLOAD_SIZE
        }
    &&& forall|shred: ShredView| #[trigger]
        accepted(shreds, st.inserted_indices, st.retransmit, shred)
            ==> st.data_shreds.contains_key(shred_key(shred)) && st.data_shreds[shred_key(shred)]
            == shred
}

/// An accepted shred was not there, and fits into a shred's payload.
proof fn lemma_accepted_is_new(
    p: Progress,
    shred: ShredView,
    source: ShredSource,
    now: u64,
)
    requires
        progress_kept(p, true, false, false),
        data_allowed(p.store, p.state, shred, false, source, now),
        data_step(p.store, p.state, shred, false, source, now).result is Ok,
    ensures
        !has_data(p.store.ledger, p.state.data_shreds, shred.slot(), shred.index() as u64),
        shred.data_header.size <= shred.payload.len() <= SHRED_PAYLOAD_SIZE,
        data_step(p.store, p.state, shred, false, source, now).state.data_shreds
            == p.state.data_shreds.insert(shred_key(shred), shred),
{
    let slot = shred.slot();
    let j = shred.index() as u64;
    let k = SlotIndex { slot, index: j };
    let ledger = p.store.ledger;
    let ie = index_entry(ledger, p.state.indexes, slot);
    assert(!ie.index.data.contains(j));
    if p.state.indexes.contains_key(slot) {
        assert(p.state.indexes[slot].index.data.contains(j) <==> has_data(
            ledger,
            p.state.data_shreds,
            slot,
            j,
        ));
    } else {
        if p.state.data_shreds.contains_key(k) {
            assert(p.state.indexes.contains_key(k.slot));
        }
        assert(ledger.data_shreds.contains_key(k) <==> ledger.index.contains_key(k.slot)
            && ledger.index[k.slot].data.contains(k.index));
    }
}

/// A shred that is not accepted adds none, and an accepted one adds itself.
proof fn lemma_step_new(
    ledger: LedgerView,
    shreds: Seq<ShredView>,
    before: InsertionView,
    after: InsertionView,
    shred: ShredView,
    is_accepted: bool,
)
    requires
        all_new(ledger, shreds, before),
        !is_accepted ==> after.data_shreds == before.data_shreds && after.inserted_indices
            == before.inserted_indices && after.retransmit == before.retransmit,
        is_accepted ==> {
            &&& after.data_shreds == before.data_shreds.insert(shred_key(shred), shred)
            &&& !before.data_shreds.contains_key(shred_key(shred))
            &&& !ledger.data_shreds.contains_key(shred_key(shred))
            &&& shred.data_header.size <= shred.payload.len() <= SHRED_PAYLOAD_SIZE
            &&& forall|s: ShredView| #[trigger]
                accepted(shreds, after.inserted_indices, after.retransmit, s) <==> accepted(
                    shreds,
                    before.inserted_indices,
                    before.retransmit,
                    s,
                ) || s == shred
        },
    ensures
        all_new(ledger, shreds, after),
{
    if is_accepted {
        assert forall|s: ShredView| #[trigger]
            accepted(shreds, after.inserted_indices, after.retransmit, s) implies
            after.data_shreds.contains_key(shred_key(s)) && after.data_shreds[shred_key(s)]
            == s by {
            if s != shred {
                assert(accepted(shreds, before.inserted_indices, before.retransmit, s));
                assert(before.data_shreds.contains_key(shred_key(s)));
            }
        }
    }
}

/// A shred of the batch was inserted.
proof fn lemma_index_accepted(
    shreds: Seq<ShredView>,
    inserted_indices: Seq<usize>,
    retransmit: Seq<ShredView>,
    at: usize,
    s: ShredView,
)
    requires
        at < shreds.len(),
    ensures
        accepted(shreds, inserted_indices.push(at), retransmit, s) <==> accepted(
            shreds,
            inserted_indices,
            retransmit,
            s,
        ) || s == shreds[at as int],
{
    let more_indices = inserted_indices.push(at);
    assert(more_indices[inserted_indices.len() as int] == at);
    if exists|x: int|
        0 <= x < inserted_indices.len() && (#[trigger] inserted_indices[x]) < shreds.len()
            && shreds[inserted_indices[x] as int] == s {
        let x = choose|x: int|
            0 <= x < inserted_indices.len() && (#[trigger] inserted_indices[x]) < shreds.len()
                && shreds[inserted_indices[x] as int] == s;
        assert(more_indices[x] == inserted_indices[x]);
    }
    if exists|x: int|
        0 <= x < more_indices.len() && (#[trigger] more_indices[x]) < shreds.len()
            && shreds[more_indices[x] as int] == s {
        let x = choose|x: int|
            0 <= x < more_indices.len() && (#[trigger] more_indices[x]) < shreds.len()
                && shreds[more_indices[x] as int] == s;
        if x < inserted_indices.len() {
            assert(inserted_indices[x] == more_indices[x]);
        }
    }
}

/// The first `n` shreds of a batch are handed in.
proof fn lemma_batch_new(
    p0: Progress,
    shreds: Seq<ShredView>,
    n: int,
    is_repaired: Seq<bool>,
    now: u64,
)
    requires
        0 <= n <= shreds.len() <= usize::MAX,
        steps_allowed(p0, shreds.take(n), is_repaired, false, now),
        progress_kept(p0, true, false, false),
        all_new(p0.store.ledger, shreds, p0.state),
    ensures
        all_new(
            p0.store.ledger,
            shreds,
            batch_steps(p0, shreds.take(n), is_repaired, false, now).state,
        ),
    decreases n,
{
    if n > 0 {
        let part = shreds.take(n);
        let before = shreds.take(n - 1);
        assert(part.drop_last() =~= before);
        assert(part.last() == shreds[n - 1]);
        lemma_batch_new(p0, shreds, n - 1, is_repaired, now);
        lemma_batch_steps_kept(p0, before, is_repaired, false, now, true, false, false);
        lemma_batch_steps_sound(p0, before, is_repaired, false, now);
        let p = batch_steps(p0, before, is_repaired, false, now);
        let shred = shreds[n - 1];
        let at = (n - 1) as usize;
        let q = batch_step(p, shred, is_repaired[n - 1], false, now, at);
        let source = source_of(is_repaired[n - 1]);
        let is_accepted = shred.is_data() && data_step(
            p.store,
            p.state,
            shred,
            false,
            source,
            now,
        ).result is Ok;
        if is_accepted {
            assert(step_allowed(p, shred, is_repaired[n - 1], false, now));
            lemma_accepted_is_new(p, shred, source, now);
            assert forall|s: ShredView| #[trigger]
                accepted(shreds, q.state.inserted_indices, q.state.retransmit, s) <==> accepted(
                    shreds,
                    p.state.inserted_indices,
                    p.state.retransmit,
                    s,
                ) || s == shred by {
                lemma_index_accepted(
                    shreds,
                    p.state.inserted_indices,
                    p.state.retransmit,
                    at,
                    s,
                );
            }
        }
        lemma_step_new(p0.store.ledger, shreds, p.state, q.state, shred, is_accepted);
    } else {
        assert(shreds.take(0) =~= Seq::empty());
    }
}

/// Recovered shreds are handed in.
proof fn lemma_recovered_new(
    ledger: LedgerView,
    p0: Progress,
    shreds: Seq<ShredView>,
    recovered: Seq<RecoveredShredView>,
    now: u64,
)
    requires
        progress_kept(p0, true, false, false),
        same_but_duplicates(ledger, p0.store.ledger),
        all_new(ledger, shreds, p0.state),
    ensures
        all_new(ledger, shreds, recovered_steps(p0, recovered, false, now).state),
    decreases recovered.len(),
{
    if recovered.len() > 0 {
        let before = recovered.drop_last();
        let r = recovered.last();
        lemma_recovered_new(ledger, p0, shreds, before, now);
        lemma_recovered_steps_kept(p0, before, false, now, true, false, false);
        lemma_recovered_steps_sound(p0, before, false, now);
        let p = recovered_steps(p0, before, false, now);
        let q = recovered_step(p, r, false, now);
        let shred = r.shred;
        let source = ShredSource::Recovered;
        let is_accepted = r.verified == Some(true) && taken_up(p, shred, false, now) && data_step(
            p.store,
            p.state,
            shred,
            false,
            source,
            now,
        ).result is Ok;
        if is_accepted {
            lemma_accepted_is_new(p, shred, source, now);
            assert(q.state.retransmit == p.state.retransmit.push(shred));
            assert forall|s: ShredView| #[trigger]
                accepted(shreds, q.state.inserted_indices, q.state.retransmit, s) <==> accepted(
                    shreds,
                    p.state.inserted_indices,
                    p.state.retransmit,
                    s,
                ) || s == shred by {
                let sent = p.state.retransmit;
                assert(sent.push(shred)[sent.len() as int] == shred);
                if sent.contains(s) {
                    let x = choose|x: int| 0 <= x < sent.len() && sent[x] == s;
                    assert(sent.push(shred)[x] == s);
                }
            }
        }
        lemma_step_new(ledger, shreds, p.state, q.state, shred, is_accepted);
    }
}

/// A checked insertion keeps every data shred that there was, stores every one that it accepted
/// as the bytes within its size, and stores no other. What is read of an accepted shred is as
/// long as a shred: its bytes, and zeros after them.
pub proof fn law_accepted_shreds_are_kept(
    store: BlockstoreView,
    shreds: Seq<ShredView>,
    is_repaired: Seq<bool>,
    now: u64,
    metrics: BlockstoreInsertionMetrics,
    recovered: Option<Seq<RecoveredShredView>>,
    has_completed_slots_senders: bool,
    after: LedgerView,
)
    requires
        ledger_sound(store.ledger),
        consistent(store.ledger),
        shreds.len() <= usize::MAX,
        batch_allowed(store, shreds, is_repaired, false, now, metrics),
        ledger_result(store, after, shreds, is_repaired, false, now, metrics, recovered),
    ensures
        ({
            let outcome = batch_inserted(
                store,
                shreds,
                is_repaired,
                false,
                now,
                metrics,
                recovered,
                has_completed_slots_senders,
            ).1;
            &&& forall|k: SlotIndex| #[trigger]
                store.ledger.data_shreds.contains_key(k) ==> after.data_shreds.contains_key(k)
                    && after.data_shreds[k] == store.ledger.data_shreds[k]
            &&& forall|shred: ShredView| #[trigger]
                accepted(shreds, outcome.inserted_indices, outcome.retransmit, shred) ==> {
                    let read = filled(after.data_shreds[shred_key(shred)]);
                    let n = shred.data_header.size as int;
                    &&& after.data_shreds.contains_key(shred_key(shred))
                    &&& after.data_shreds[shred_key(shred)] == shred.stored()
                    &&& read.len() == SHRED_PAYLOAD_SIZE
                    &&& read.take(n) == shred.payload.take(n)
                    &&& forall|i: int| n <= i < read.len() ==> #[trigger] read[i] == 0
                }
            &&& forall|k: SlotIndex| #[trigger]
                after.data_shreds.contains_key(k) ==> store.ledger.data_shreds.contains_key(k)
                    || accepted_at(shreds, outcome.inserted_indices, outcome.retransmit, k)
        }),
{
    let start = batch_start(metrics, shreds.len() as usize);
    let p0 = Progress { store, state: start };
    lemma_start_sound(store.ledger, start.metrics);
    lemma_start_tracks(store.ledger, start);
    lemma_start_consistent(store.ledger, start);
    assert(progress_kept(p0, true, false, false));
    assert(all_new(store.ledger, shreds, start)) by {
        assert forall|shred: ShredView| !#[trigger]
            accepted(shreds, start.inserted_indices, start.retransmit, shred) by {
        }
    }
    assert(shreds.take(shreds.len() as int) =~= shreds);
    lemma_batch_new(p0, shreds, shreds.len() as int, is_repaired, now);
    lemma_batch_steps_kept(p0, shreds, is_repaired, false, now, true, false, false);
    lemma_batch_steps_sound(p0, shreds, is_repaired, false, now);
    let p1 = batch_steps(p0, shreds, is_repaired, false, now);
    let p = all_received(
        store,
        shreds,
        is_repaired,
        false,
        now,
        metrics,
        recovered,
    );
    if recovered is Some {
        let q = Progress {
            state: InsertionView {
                metrics: BlockstoreInsertionMetrics {
                    num_recovered: more(
                        p1.state.metrics.num_recovered,
                        recovered->0.len() as usize,
                    ),
                    ..p1.state.metrics
                },
                ..p1.state
            },
            ..p1
        };
        assert(progress_kept(q, true, false, false));
        lemma_recovered_new(store.ledger, q, shreds, recovered->0, now);
        lemma_recovered_steps_sound(q, recovered->0, false, now);
    }
    let new = stored_shreds(p.state.data_shreds);
    assert(after.data_shreds == overlay(store.ledger.data_shreds, new));
    assert forall|k: SlotIndex| #[trigger] store.ledger.data_shreds.contains_key(k) implies
        after.data_shreds.contains_key(k) && after.data_shreds[k]
        == store.ledger.data_shreds[k] by {
        assert(!p.state.data_shreds.contains_key(k));
        assert(!new.contains_key(k));
    }
    assert forall|shred: ShredView| #[trigger]
        accepted(shreds, p.state.inserted_indices, p.state.retransmit, shred) implies {
        let read = filled(after.data_shreds[shred_key(shred)]);
        let n = shred.data_header.size as int;
        &&& after.data_shreds.contains_key(shred_key(shred))
        &&& after.data_shreds[shred_key(shred)] == shred.stored()
        &&& read.len() == SHRED_PAYLOAD_SIZE
        &&& read.take(n) == shred.payload.take(n)
        &&& forall|i: int| n <= i < read.len() ==> #[trigger] read[i] == 0
    } by {
        let k = shred_key(shred);
        assert(p.state.data_shreds.contains_key(k));
        assert(new.contains_key(k));
        let read = filled(after.data_shreds[k]);
        let n = shred.data_header.size as int;
        assert(read.take(n) =~= shred.payload.take(n));
    }
    assert forall|k: SlotIndex| #[trigger] after.data_shreds.contains_key(k) implies
        store.ledger.data_shreds.contains_key(k) || accepted_at(
        shreds,
        p.state.inserted_indices,
        p.state.retransmit,
        k,
    ) by {
        if p.state.data_shreds.contains_key(k) {
            assert(accepted(
                shreds,
                p.state.inserted_indices,
                p.state.retransmit,
                p.state.data_shreds[k],
            ));
        } else {
            assert(!new.contains_key(k));
        }
    }
}

/// The accepted shreds in the order in which they were handed in.
pub open spec fn accepted_in_order(
    shreds: Seq<ShredView>,
    inserted_indices: Seq<usize>,
    retransmit: Seq<ShredView>,
) -> Seq<ShredView> {
    Seq::new(inserted_indices.len(), |x: int| shreds[inserted_indices[x] as int]) + retransmit
}

/// The last of some shreds that stands at a key.
pub open spec fn last_at(shreds: Seq<ShredView>, k: SlotIndex) -> Option<ShredView>
    decreases shreds.len(),
{
    if shreds.len() == 0 {
        None
    } else if shred_key(shreds.last()) == k {
        Some(shreds.last())
    } else {
        last_at(shreds.drop_last(), k)
    }
}

/// An insertion holds at a key the last shred that was accepted there, and none where none was.
spec fn holds_last(accepted_shreds: Seq<ShredView>, st: InsertionView, k: SlotIndex) -> bool {
    match last_at(accepted_shreds, k) {
        Some(shred) => st.data_shreds.contains_key(k) && st.data_shreds[k] == shred
            && shred.data_header.size <= shred.payload.len(),
        None => !st.data_shreds.contains_key(k),
    }
}

spec fn holds_all_last(shreds: Seq<ShredView>, st: InsertionView) -> bool {
    forall|k: SlotIndex| #[trigger]
        holds_last(accepted_in_order(shreds, st.inserted_indices, st.retransmit), st, k)
}

/// A shred that is not accepted changes nothing, and an accepted one comes last at its key.
proof fn lemma_step_last(
    shreds: Seq<ShredView>,
    before: InsertionView,
    after: InsertionView,
    shred: ShredView,
    is_accepted: bool,
)
    requires
        holds_all_last(shreds, before),
        !is_accepted ==> after.data_shreds == before.data_shreds && after.inserted_indices
            == before.inserted_indices && after.retransmit == before.retransmit,
        is_accepted ==> {
            &&& after.data_shreds == before.data_shreds.insert(shred_key(shred), shred)
            &&& shred.data_header.size <= shred.payload.len()
            &&& accepted_in_order(shreds, after.inserted_indices, after.retransmit)
                == accepted_in_order(shreds, before.inserted_indices, before.retransmit).push(
                shred,
            )
        },
    ensures
        holds_all_last(shreds, after),
{
    let old_shreds = accepted_in_order(shreds, before.inserted_indices, before.retransmit);
    let new_shreds = accepted_in_order(shreds, after.inserted_indices, after.retransmit);
    assert forall|k: SlotIndex| #[trigger] holds_last(new_shreds, after, k) by {
        assert(holds_last(old_shreds, before, k));
        if is_accepted {
            assert(new_shreds.last() == shred);
            assert(new_shreds.drop_last() =~= old_shreds);
        }
    }
}

/// The first `n` shreds of a batch are handed in.
proof fn lemma_batch_last(
    p0: Progress,
    shreds: Seq<ShredView>,
    n: int,
    is_repaired: Seq<bool>,
    is_trusted: bool,
    now: u64,
)
    requires
        0 <= n <= shreds.len() <= usize::MAX,
        steps_allowed(p0, shreds.take(n), is_repaired, is_trusted, now),
        holds_all_last(shreds, p0.state),
        p0.state.retransmit.len() == 0,
    ensures
        holds_all_last(
            shreds,
            batch_steps(p0, shreds.take(n), is_repaired, is_trusted, now).state,
        ),
        batch_steps(p0, shreds.take(n), is_repaired, is_trusted, now).state.retransmit.len() == 0,
    decreases n,
{
    if n > 0 {
        let part = shreds.take(n);
        let before = shreds.take(n - 1);
        assert(part.drop_last() =~= before);
        assert(part.last() == shreds[n - 1]);
        lemma_batch_last(p0, shreds, n - 1, is_repaired, is_trusted, now);
        let p = batch_steps(p0, before, is_repaired, is_trusted, now);
        let shred = shreds[n - 1];
        let at = (n - 1) as usize;
        let q = batch_step(p, shred, is_repaired[n - 1], is_trusted, now, at);
        let source = source_of(is_repaired[n - 1]);
        let is_accepted = shred.is_data() && data_step(
            p.store,
            p.state,
            shred,
            is_trusted,
            source,
            now,
        ).result is Ok;
        if is_accepted {
            assert(step_allowed(p, shred, is_repaired[n - 1], is_trusted, now));
            let indices = p.state.inserted_indices;
            assert(q.state.inserted_indices == indices.push(at));
            assert(accepted_in_order(shreds, indices.push(at), q.state.retransmit)
                =~= accepted_in_order(shreds, indices, p.state.retransmit).push(shred));
        }
        lemma_step_last(shreds, p.state, q.state, shred, is_accepted);
    } else {
        assert(shreds.take(0) =~= Seq::empty());
    }
}

/// Recovered shreds are handed in.
proof fn lemma_recovered_last(
    p0: Progress,
    shreds: Seq<ShredView>,
    recovered: Seq<RecoveredShredView>,
    is_trusted: bool,
    now: u64,
)
    requires
        holds_all_last(shreds, p0.state),
    ensures
        holds_all_last(shreds, recovered_steps(p0, recovered, is_trusted, now).state),
    decreases recovered.len(),
{
    if recovered.len() > 0 {
        let before = recovered.drop_last();
        let r = recovered.last();
        lemma_recovered_last(p0, shreds, before, is_trusted, now);
        let p = recovered_steps(p0, before, is_trusted, now);
        let q = recovered_step(p, r, is_trusted, now);
        let shred = r.shred;
        let is_accepted = r.verified == Some(true) && taken_up(p, shred, is_trusted, now)
            && data_step(
            p.store,
            p.state,
            shred,
            is_trusted,
            ShredSource::Recovered,
            now,
        ).result is Ok;
        if is_accepted {
            let indices = p.state.inserted_indices;
            let sent = p.state.retransmit;
            assert(q.state.retransmit == sent.push(shred));
            assert(accepted_in_order(shreds, indices, sent.push(shred)) =~= accepted_in_order(
                shreds,
                indices,
                sent,
            ).push(shred));
        }
        lemma_step_last(shreds, p.state, q.state, shred, is_accepted);
    }
}

/// After an insertion, checked or trusted, there is at each slot and index the last data shred
/// that it accepted for them, as the bytes within its size; where it accepted none there is
/// what there was before, or nothing. What is read of an accepted shred that is no larger than
/// a shred is as long as a shred: its bytes, and zeros after them.
pub proof fn law_last_accepted_shred_is_read(
    store: BlockstoreView,
    shreds: Seq<ShredView>,
    is_repaired: Seq<bool>,
    is_trusted: bool,
    now: u64,
    metrics: BlockstoreInsertionMetrics,
    recovered: Option<Seq<RecoveredShredView>>,
    has_completed_slots_senders: bool,
    after: LedgerView,
    k: SlotIndex,
)
    requires
        ledger_sound(store.ledger),
        shreds.len() <= usize::MAX,
        batch_allowed(store, shreds, is_repaired, is_trusted, now, metrics),
        ledger_result(store, after, shreds, is_repaired, is_trusted, now, metrics, recovered),
    ensures
        ({
            let outcome = batch_inserted(
                store,
                shreds,
                is_repaired,
                is_trusted,
                now,
                metrics,
                recovered,
                has_completed_slots_senders,
            ).1;
            match last_at(
                accepted_in_order(shreds, outcome.inserted_indices, outcome.retransmit),
                k,
            ) {
                Some(shred) => {
                    let read = filled(after.data_shreds[k]);
                    let n = shred.data_header.size as int;
                    &&& shred_key(shred) == k
                    &&& after.data_shreds.contains_key(k)
                    &&& after.data_shreds[k] == shred.stored()
                    &&& n <= SHRED_PAYLOAD_SIZE ==> {
                        &&& read.len() == SHRED_PAYLOAD_SIZE
                        &&& read.take(n) == shred.payload.take(n)
                        &&& forall|i: int| n <= i < read.len() ==> #[trigger] read[i] == 0
                    }
                },
                None => {
                    &&& after.data_shreds.contains_key(k) == store.ledger.data_shreds.contains_key(
                        k,
                    )
                    &&& after.data_shreds.contains_key(k) ==> after.data_shreds[k]
                        == store.ledger.data_shreds[k]
                },
            }
        }),
{
    let start = batch_start(metrics, shreds.len() as usize);
    let p0 = Progress { store, state: start };
    lemma_start_sound(store.ledger, start.metrics);
    let none = accepted_in_order(shreds, start.inserted_indices, start.retransmit);
    assert(none.len() == 0);
    assert forall|k: SlotIndex| #[trigger] holds_last(none, start, k) by {
    }
    assert(shreds.take(shreds.len() as int) =~= shreds);
    lemma_batch_last(p0, shreds, shreds.len() as int, is_repaired, is_trusted, now);
    lemma_batch_steps_sound(p0, shreds, is_repaired, is_trusted, now);
    let p1 = batch_steps(p0, shreds, is_repaired, is_trusted, now);
    let p = all_received(
        store,
        shreds,
        is_repaired,
        is_trusted,
        now,
        metrics,
        recovered,
    );
    if recovered is Some {
        let q = Progress {
            state: InsertionView {
                metrics: BlockstoreInsertionMetrics {
                    num_recovered: more(
                        p1.state.metrics.num_recovered,
                        recovered->0.len() as usize,
                    ),
                    ..p1.state.metrics
                },
                ..p1.state
            },
            ..p1
        };
        assert(holds_all_last(shreds, q.state)) by {
            let all = accepted_in_order(
                shreds,
                p1.state.inserted_indices,
                p1.state.retransmit,
            );
            assert forall|k: SlotIndex| #[trigger] holds_last(all, q.state, k) by {
                assert(holds_last(all, p1.state, k));
            }
        }
        lemma_recovered_last(q, shreds, recovered->0, is_trusted, now);
        lemma_recovered_steps_sound(q, recovered->0, is_trusted, now);
    }
    let all = accepted_in_order(shreds, p.state.inserted_indices, p.state.retransmit);
    let new = stored_shreds(p.state.data_shreds);
    assert(holds_last(all, p.state, k));
    assert(after.data_shreds == overlay(store.ledger.data_shreds, new));
    assert(new.contains_key(k) == p.state.data_shreds.contains_key(k));
    lemma_last_at_key(all, k);
    if let Some(shred) = last_at(all, k) {
        let read = filled(after.data_shreds[k]);
        let n = shred.data_header.size as int;
        if n <= SHRED_PAYLOAD_SIZE {
            assert(read.take(n) =~= shred.payload.take(n));
        }
    }
}

proof fn lemma_last_at_key(shreds: Seq<ShredView>, k: SlotIndex)
    ensures
        last_at(shreds, k) matches Some(shred) ==> shred_key(shred) == k,
    decreases shreds.len(),
{
    if shreds.len() > 0 {
        lemma_last_at_key(shreds.drop_last(), k);
    }
}

/// The shreds of a batch that a trusted insertion accepts: the data shreds that have a parent.
spec fn trusted_indices(shreds: Seq<ShredView>, n: int, inserted_indices: Seq<usize>) -> bool {
    forall|x: usize| #[trigger]
        inserted_indices.contains(x) <==> x < n && shreds[x as int].is_data()
            && shreds[x as int].parent() is Some
}

proof fn lemma_batch_trusted(
    p0: Progress,
    shreds: Seq<ShredView>,
    n: int,
    is_repaired: Seq<bool>,
    now: u64,
)
    requires
        0 <= n <= shreds.len() <= usize::MAX,
        p0.state.inserted_indices.len() == 0,
    ensures
        trusted_indices(
            shreds,
            n,
            batch_steps(p0, shreds.take(n), is_repaired, true, now).state.inserted_indices,
        ),
    decreases n,
{
    if n > 0 {
        let part = shreds.take(n);
        let before = shreds.take(n - 1);
        assert(part.drop_last() =~= before);
        assert(part.last() == shreds[n - 1]);
        lemma_batch_trusted(p0, shreds, n - 1, is_repaired, now);
        let p = batch_steps(p0, before, is_repaired, true, now);
        let shred = shreds[n - 1];
        let at = (n - 1) as usize;
        let q = batch_step(p, shred, is_repaired[n - 1], true, now, at);
        let indices = p.state.inserted_indices;
        let is_accepted = shred.is_data() && shred.parent() is Some;
        assert(q.state.inserted_indices == if is_accepted {
            indices.push(at)
        } else {
            indices
        });
        assert forall|x: usize| #[trigger] q.state.inserted_indices.contains(x) <==> x < n
            && shreds[x as int].is_data() && shreds[x as int].parent() is Some by {
            assert(indices.contains(x) <==> x < n - 1 && shreds[x as int].is_data()
                && shreds[x as int].parent() is Some);
            if is_accepted {
                assert(indices.push(at)[indices.len() as int] == at);
                if indices.contains(x) {
                    let y = choose|y: int| 0 <= y < indices.len() && indices[y] == x;
                    assert(indices.push(at)[y] == x);
                }
                if indices.push(at).contains(x) && x != at {
                    let y = choose|y: int|
                        0 <= y < indices.push(at).len() && indices.push(at)[y] == x;
                    assert(indices[y] == x);
                }
            }
        }
    } else {
        assert(shreds.take(0) =~= Seq::empty());
    }
}

/// Recovered shreds are none of the batch.
proof fn lemma_recovered_indices(
    p0: Progress,
    recovered: Seq<RecoveredShredView>,
    is_trusted: bool,
    now: u64,
)
    ensures
        recovered_steps(p0, recovered, is_trusted, now).state.inserted_indices
            == p0.state.inserted_indices,
    decreases recovered.len(),
{
    if recovered.len() > 0 {
        lemma_recovered_indices(p0, recovered.drop_last(), is_trusted, now);
    }
}

/// A trusted insertion accepts every data shred of the batch that has a parent, whatever there
/// was, and no other shred of the batch.
pub proof fn law_trusted_shreds_are_accepted(
    store: BlockstoreView,
    shreds: Seq<ShredView>,
    is_repaired: Seq<bool>,
    now: u64,
    metrics: BlockstoreInsertionMetrics,
    recovered: Option<Seq<RecoveredShredView>>,
    has_completed_slots_senders: bool,
    x: usize,
)
    requires
        shreds.len() <= usize::MAX,
    ensures
        batch_inserted(
            store,
            shreds,
            is_repaired,
            true,
            now,
            metrics,
            recovered,
            has_completed_slots_senders,
        ).1.inserted_indices.contains(x) <==> x < shreds.len() && shreds[x as int].is_data()
            && shreds[x as int].parent() is Some,
{
    let start = batch_start(metrics, shreds.len() as usize);
    let p0 = Progress { store, state: start };
    assert(shreds.take(shreds.len() as int) =~= shreds);
    lemma_batch_trusted(p0, shreds, shreds.len() as int, is_repaired, now);
    if recovered is Some {
        let p1 = batch_steps(p0, shreds, is_repaired, true, now);
        let q = Progress {
            state: InsertionView {
                metrics: BlockstoreInsertionMetrics {
                    num_recovered: more(
                        p1.state.metrics.num_recovered,
                        recovered->0.len() as usize,
                    ),
                    ..p1.state.metrics
                },
                ..p1.state
            },
            ..p1
        };
        lemma_recovered_indices(q, recovered->0, true, now);
    }
}

} // verus!
