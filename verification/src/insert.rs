//! Insertion of shreds into the store.

use vstd::prelude::*;
use crate::batch::{
    batch_allowed, batch_outcome, batch_received, batch_start, batch_steps, batch_writes,
    ledger_sound, lemma_batch_steps_sound, lemma_recovered_steps_sound, lemma_start_sound,
    recovered_views, recovery_received, same_but_duplicates, InsertionOutcome, InsertionOutcomeView,
    Progress, RecoveredShred, RecoveredShredView,
};
use crate::blockstore::{Blockstore, BlockstoreView};
use crate::chaining::inserted_into;
use crate::coding::{code_readable, recovery_sets, shred_sets};
use crate::column::{ordered_keys, orders, SlotIndex};
use crate::consistency::{
    code_parses, consistent, ends_marked, faithful, lemma_batch_steps_kept,
    lemma_recovered_steps_kept, lemma_result_consistent, lemma_result_marked, lemma_result_sound,
    lemma_start_consistent, progress_kept,
};
use crate::insertion::InsertionView;
use crate::integrity::{batch_result, lemma_start_tracks};
use crate::ledger::LedgerView;
use crate::links::{
    lemma_batch_steps_fit, lemma_checked_result_links, lemma_checked_result_orphans,
    lemma_links_same_meta, lemma_recovered_steps_fit, links_agree, orphans_agree, state_fits,
};
use crate::metrics::{more, BlockstoreInsertionMetrics};
use crate::shred::{parse_shred, shred_views, Shred, ShredView};

verus! {

/// The erasure sets that can be completed once a batch has been handed in.
pub open spec fn sets_to_recover(
    store: BlockstoreView,
    shreds: Seq<ShredView>,
    is_repaired: Seq<bool>,
    is_trusted: bool,
    now: u64,
    metrics: BlockstoreInsertionMetrics,
) -> Seq<Seq<ShredView>> {
    let p = batch_received(store, shreds, is_repaired, is_trusted, now, metrics);
    recovery_sets(p.store.ledger, p.state, ordered_keys(p.state.erasure_metas))
}

/// The progress once a batch, and the shreds recovered with its help, have been handed in.
pub open spec fn all_received(
    store: BlockstoreView,
    shreds: Seq<ShredView>,
    is_repaired: Seq<bool>,
    is_trusted: bool,
    now: u64,
    metrics: BlockstoreInsertionMetrics,
    recovered: Option<Seq<RecoveredShredView>>,
) -> Progress {
    let p = batch_received(store, shreds, is_repaired, is_trusted, now, metrics);
    match recovered {
        None => p,
        Some(r) => recovery_received(p, r, is_trusted, now),
    }
}

/// The store after a batch was inserted, and what the caller learns of it.
pub open spec fn batch_inserted(
    store: BlockstoreView,
    shreds: Seq<ShredView>,
    is_repaired: Seq<bool>,
    is_trusted: bool,
    now: u64,
    metrics: BlockstoreInsertionMetrics,
    recovered: Option<Seq<RecoveredShredView>>,
    has_completed_slots_senders: bool,
) -> (BlockstoreView, InsertionOutcomeView) {
    let p = all_received(store, shreds, is_repaired, is_trusted, now, metrics, recovered);
    (
        p.store.commit(batch_writes(p.store.ledger, p.state)),
        batch_outcome(p.store.ledger, p.state, has_completed_slots_senders),
    )
}

/// What a batch leaves in the columns that insertion writes.
pub open spec fn ledger_result(
    store: BlockstoreView,
    after: LedgerView,
    shreds: Seq<ShredView>,
    is_repaired: Seq<bool>,
    is_trusted: bool,
    now: u64,
    metrics: BlockstoreInsertionMetrics,
    recovered: Option<Seq<RecoveredShredView>>,
) -> bool {
    let p = all_received(store, shreds, is_repaired, is_trusted, now, metrics, recovered);
    &&& batch_result(p.store.ledger, p.state, after)
    &&& after.code_shreds == p.store.ledger.apply_all(p.state.write_batch).code_shreds
}

/// Every shred of a batch is stored faithfully.
pub open spec fn all_faithful(shreds: Seq<ShredView>) -> bool {
    forall|i: int| 0 <= i < shreds.len() ==> faithful(#[trigger] shreds[i])
}

/// Every recovered shred is stored faithfully.
pub open spec fn recovered_faithful(recovered: Option<Seq<RecoveredShredView>>) -> bool {
    recovered matches Some(r) ==> forall|i: int|
        0 <= i < r.len() ==> faithful((#[trigger] r[i]).shred)
}

/// The bytes of every coding shred of a batch can be read.
pub open spec fn all_code_parses(shreds: Seq<ShredView>) -> bool {
    forall|i: int| 0 <= i < shreds.len() ==> code_parses(#[trigger] shreds[i])
}

/// What an insertion keeps true of the ledger: it stays sound where the coding shreds of the
/// batch can be read; it stays consistent; its links stay in agreement where the shreds were
/// checked, and its orphans stay those without a parent; and the ends of its runs stay marked
/// where the shreds are also stored faithfully.
pub open spec fn ledger_kept(
    before: LedgerView,
    after: LedgerView,
    shreds: Seq<ShredView>,
    is_trusted: bool,
    recovered: Option<Seq<RecoveredShredView>>,
) -> bool {
    &&& all_code_parses(shreds) ==> ledger_sound(after)
    &&& consistent(before) ==> consistent(after)
    &&& links_agree(before) && !is_trusted ==> links_agree(after)
    &&& links_agree(before) && orphans_agree(before) && !is_trusted ==> orphans_agree(after)
    &&& consistent(before) && ends_marked(before) && !is_trusted && all_faithful(shreds)
        && recovered_faithful(recovered) ==> ends_marked(after)
}

/// An insertion keeps the ledger sound, consistent and marked.
proof fn lemma_ledger_kept(
    store: BlockstoreView,
    shreds: Seq<ShredView>,
    is_repaired: Seq<bool>,
    is_trusted: bool,
    now: u64,
    metrics: BlockstoreInsertionMetrics,
    recovered: Option<Seq<RecoveredShredView>>,
)
    requires
        batch_allowed(store, shreds, is_repaired, is_trusted, now, metrics),
        ledger_sound(store.ledger),
    ensures
        ({
            let p = all_received(
                store,
                shreds,
                is_repaired,
                is_trusted,
                now,
                metrics,
                recovered,
            );
            progress_kept(
                p,
                consistent(store.ledger),
                consistent(store.ledger) && ends_marked(store.ledger) && !is_trusted
                    && all_faithful(shreds) && recovered_faithful(recovered),
                all_code_parses(shreds),
            ) && same_but_duplicates(store.ledger, p.store.ledger) && (!is_trusted ==> state_fits(
                p.store.ledger,
                p.state,
            ))
        }),
{
    let start = batch_start(metrics, shreds.len() as usize);
    let p0 = Progress { store, state: start };
    let c = consistent(store.ledger);
    let m = c && ends_marked(store.ledger) && !is_trusted && all_faithful(shreds)
        && recovered_faithful(recovered);
    let r = all_code_parses(shreds);
    lemma_start_sound(store.ledger, start.metrics);
    lemma_start_tracks(store.ledger, start);
    lemma_start_consistent(store.ledger, start);
    assert(store.ledger.apply_all(start.write_batch) == store.ledger);
    assert(progress_kept(p0, c, m, r));
    lemma_batch_steps_kept(p0, shreds, is_repaired, is_trusted, now, c, m, r);
    let p1 = batch_steps(p0, shreds, is_repaired, is_trusted, now);
    lemma_batch_steps_sound(p0, shreds, is_repaired, is_trusted, now);
    if !is_trusted {
        lemma_batch_steps_fit(p0, shreds, is_repaired, now);
    }
    if recovered is Some {
        let q = Progress {
            state: InsertionView {
                metrics: BlockstoreInsertionMetrics {
                    num_recovered: more(
                        p1.state.metrics.num_recovered,
                        recovered->0.len() as usize,
                    ),
                    ..p1.state.metrics
                },
                ..p1.state
            },
            ..p1
        };
        assert(progress_kept(q, c, m, r));
        lemma_recovered_steps_kept(q, recovered->0, is_trusted, now, c, m, r);
        lemma_recovered_steps_sound(q, recovered->0, is_trusted, now);
        if !is_trusted {
            lemma_recovered_steps_fit(q, recovered->0, now);
        }
    }
}

/// What was handed in, `p`, is written: the ledger is kept.
proof fn lemma_written_kept(
    store: BlockstoreView,
    p: Progress,
    after: LedgerView,
    shreds: Seq<ShredView>,
    is_trusted: bool,
    recovered: Option<Seq<RecoveredShredView>>,
)
    requires
        progress_kept(
            p,
            consistent(store.ledger),
            consistent(store.ledger) && ends_marked(store.ledger) && !is_trusted && all_faithful(
                shreds,
            ) && recovered_faithful(recovered),
            all_code_parses(shreds),
        ),
        same_but_duplicates(store.ledger, p.store.ledger),
        !is_trusted ==> state_fits(p.store.ledger, p.state),
        batch_result(p.store.ledger, p.state, after),
        after.code_shreds == p.store.ledger.apply_all(p.state.write_batch).code_shreds,
        orders(
            ordered_keys(inserted_into(p.state.slot_metas)),
            inserted_into(p.state.slot_metas),
        ),
    ensures
        ledger_kept(store.ledger, after, shreds, is_trusted, recovered),
{
    if all_code_parses(shreds) {
        let applied = p.store.ledger.apply_all(p.state.write_batch);
        assert(code_readable(after)) by {
            assert forall|k: SlotIndex| #[trigger]
                after.code_shreds.contains_key(k) implies parse_shred(
                after.code_shreds[k],
            ) is Some by {
                assert(applied.code_shreds.contains_key(k));
            }
        }
        lemma_result_sound(p.store.ledger, p.state, after);
    }
    if links_agree(store.ledger) && !is_trusted {
        lemma_links_same_meta(store.ledger, p.store.ledger);
        lemma_checked_result_links(p.store.ledger, p.state, after);
        if orphans_agree(store.ledger) {
            assert(orphans_agree(p.store.ledger));
            lemma_checked_result_orphans(p.store.ledger, p.state, after);
        }
    }
    if consistent(store.ledger) {
        lemma_result_consistent(p.store.ledger, p.state, after);
        if ends_marked(store.ledger) && !is_trusted && all_faithful(shreds) && recovered_faithful(
            recovered,
        ) {
            lemma_result_marked(p.store.ledger, p.state, after);
        }
    }
}

/// None of `n` shreds was repaired.
pub open spec fn unrepaired(n: nat) -> Seq<bool> {
    Seq::new(n, |i: int| false)
}

fn none_repaired(n: usize) -> (result: Vec<bool>)
    ensures
        result@ == unrepaired(n as nat),
{
    let mut result: Vec<bool> = Vec::new();
    let mut i: usize = 0;
    while i < n
        invariant
            0 <= i <= n,
            result@ == unrepaired(i as nat),
        decreases n - i,
    {
        result.push(false);
        assert(result@ =~= unrepaired((i + 1) as nat));
        i += 1;
    }
    result
}

/// The store after an insertion, and what the caller learns of it. What was true of the ledger
/// stays true of it, and every column is as the batch leaves it.
pub open spec fn inserted(
    store: BlockstoreView,
    shreds: Seq<ShredView>,
    is_repaired: Seq<bool>,
    is_trusted: bool,
    now: u64,
    metrics: BlockstoreInsertionMetrics,
    recovered: Option<Seq<RecoveredShredView>>,
    has_completed_slots_senders: bool,
    after: BlockstoreView,
    outcome: InsertionOutcomeView,
) -> bool {
    &&& (after, outcome) == batch_inserted(
        store,
        shreds,
        is_repaired,
        is_trusted,
        now,
        metrics,
        recovered,
        has_completed_slots_senders,
    )
    &&& ledger_kept(store.ledger, after.ledger, shreds, is_trusted, recovered)
    &&& ledger_result(
        store,
        after.ledger,
        shreds,
        is_repaired,
        is_trusted,
        now,
        metrics,
        recovered,
    )
}

/// The store after an insertion with what `recover`, if it is there, makes of the erasure sets
/// that can be completed.
pub open spec fn inserted_recovering<F: Fn(Vec<Vec<Shred>>) -> Vec<RecoveredShred>>(
    recover: Option<F>,
    store: BlockstoreView,
    shreds: Seq<ShredView>,
    is_repaired: Seq<bool>,
    is_trusted: bool,
    now: u64,
    metrics: BlockstoreInsertionMetrics,
    has_completed_slots_senders: bool,
    after: BlockstoreView,
    outcome: InsertionOutcomeView,
) -> bool {
    match recover {
        None => inserted(
            store,
            shreds,
            is_repaired,
            is_trusted,
            now,
            metrics,
            None,
            has_completed_slots_senders,
            after,
            outcome,
        ),
        Some(f) => exists|sets: Vec<Vec<Shred>>, recovered: Vec<RecoveredShred>|
            {
                &&& #[trigger] call_ensures(f, (sets,), recovered)
                &&& shred_sets(sets@) == sets_to_recover(
                    store,
                    shreds,
                    is_repaired,
                    is_trusted,
                    now,
                    metrics,
                )
                &&& inserted(
                    store,
                    shreds,
                    is_repaired,
                    is_trusted,
                    now,
                    metrics,
                    Some(recovered_views(recovered@)),
                    has_completed_slots_senders,
                    after,
                    outcome,
                )
            },
    }
}

impl Blockstore {
    /// Inserts a batch of shreds, each with whether it was repaired, and the shreds that
    /// `recover` makes of the erasure sets that can be completed. `recover` is handed the
    /// shreds of those sets, and returns the missing data shreds, each with what the signature
    /// check said of it; one that would be inserted but cannot be stored is passed over. Without
    /// `recover` nothing is recovered. Trusted shreds are not checked. `now` is in
    /// milliseconds.
    ///
    /// The result holds what there is for the caller to do: the duplicates to look into, the
    /// recovered shreds to send on, and whom to signal what.
    pub fn insert_shreds_handle_duplicate<F: Fn(Vec<Vec<Shred>>) -> Vec<RecoveredShred>>(
        &mut self,
        shreds: Vec<Shred>,
        is_repaired: Vec<bool>,
        recover: Option<F>,
        is_trusted: bool,
        has_completed_slots_senders: bool,
        now: u64,
        metrics: &mut BlockstoreInsertionMetrics,
    ) -> (result: InsertionOutcome)
        requires
            shreds@.len() == is_repaired@.len(),
            batch_allowed(
                old(self)@,
                shred_views(shreds@),
                is_repaired@,
                is_trusted,
                now,
                *old(metrics),
            ),
            ledger_sound(old(self)@.ledger),
            recover is Some ==> forall|sets: Vec<Vec<Shred>>|
                call_requires(recover->0, (sets,)),
        ensures
            *final(metrics) == result@.metrics,
            inserted_recovering(
                recover,
                old(self)@,
                shred_views(shreds@),
                is_repaired@,
                is_trusted,
                now,
                *old(metrics),
                has_completed_slots_senders,
                final(self)@,
                result@,
            ),
    {
        let ghost store0 = self@;
        let ghost views = shred_views(shreds@);
        let ghost counters = *metrics;
        let mut state = self.receive_shreds(shreds, &is_repaired, is_trusted, now, *metrics);
        match recover {
            Some(f) => {
                let sets = self.try_shred_recovery(&state);
                let ghost sets0 = sets;
                let recovered = f(sets);
                let ghost recovered0 = recovered;
                let ghost r = Some(recovered_views(recovered@));
                self.receive_recovered_shreds(&mut state, recovered, is_trusted, now);
                let ghost p = Progress { store: self@, state: state@ };
                proof {
                    lemma_ledger_kept(
                        store0,
                        views,
                        is_repaired@,
                        is_trusted,
                        now,
                        counters,
                        r,
                    );
                }
                let outcome = self.commit_insertion(state, has_completed_slots_senders);
                *metrics = outcome.metrics;
                proof {
                    lemma_written_kept(store0, p, self@.ledger, views, is_trusted, r);
                    assert(inserted(
                        store0,
                        views,
                        is_repaired@,
                        is_trusted,
                        now,
                        counters,
                        r,
                        has_completed_slots_senders,
                        self@,
                        outcome@,
                    ));
                    assert(call_ensures(f, (sets0,), recovered0));
                }
                outcome
            },
            None => {
                let ghost p = Progress { store: self@, state: state@ };
                proof {
                    lemma_ledger_kept(
                        store0,
                        views,
                        is_repaired@,
                        is_trusted,
                        now,
                        counters,
                        None,
                    );
                }
                let outcome = self.commit_insertion(state, has_completed_slots_senders);
                *metrics = outcome.metrics;
                proof {
                    lemma_written_kept(store0, p, self@.ledger, views, is_trusted, None);
                }
                outcome
            },
        }
    }

    /// Inserts a batch of shreds that were not repaired, and the shreds that `recover` makes of
    /// the erasure sets that can be completed. The slots that have become full are told where
    /// there is someone to tell.
    pub fn insert_shreds<F: Fn(Vec<Vec<Shred>>) -> Vec<RecoveredShred>>(
        &mut self,
        shreds: Vec<Shred>,
        recover: Option<F>,
        is_trusted: bool,
        has_completed_slots_senders: bool,
        now: u64,
    ) -> (result: InsertionOutcome)
        requires
            batch_allowed(
                old(self)@,
                shred_views(shreds@),
                unrepaired(shreds@.len()),
                is_trusted,
                now,
                BlockstoreInsertionMetrics::zero(),
            ),
            ledger_sound(old(self)@.ledger),
            recover is Some ==> forall|sets: Vec<Vec<Shred>>|
                call_requires(recover->0, (sets,)),
        ensures
            inserted_recovering(
                recover,
                old(self)@,
                shred_views(shreds@),
                unrepaired(shreds@.len()),
                is_trusted,
                now,
                BlockstoreInsertionMetrics::zero(),
                has_completed_slots_senders,
                final(self)@,
                result@,
            ),
    {
        let is_repaired = none_repaired(shreds.len());
        let mut metrics = BlockstoreInsertionMetrics::default();
        self.insert_shreds_handle_duplicate(
            shreds,
            is_repaired,
            recover,
            is_trusted,
            has_completed_slots_senders,
            now,
            &mut metrics,
        )
    }

    /// Inserts a batch of shreds that were not repaired, and recovers nothing.
    pub(crate) fn insert_unrepaired(&mut self, shreds: Vec<Shred>, is_trusted: bool, now: u64) -> (
    result: InsertionOutcome)
        requires
            batch_allowed(
                old(self)@,
                shred_views(shreds@),
                unrepaired(shreds@.len()),
                is_trusted,
                now,
                BlockstoreInsertionMetrics::zero(),
            ),
            ledger_sound(old(self)@.ledger),
        ensures
            inserted(
                old(self)@,
                shred_views(shreds@),
                unrepaired(shreds@.len()),
                is_trusted,
                now,
                BlockstoreInsertionMetrics::zero(),
                None,
                false,
                final(self)@,
                result@,
            ),
    {
        let is_repaired = none_repaired(shreds.len());
        let ghost store0 = self@;
        let ghost views = shred_views(shreds@);
        let metrics = BlockstoreInsertionMetrics::default();
        let state = self.receive_shreds(shreds, &is_repaired, is_trusted, now, metrics);
        let ghost p = Progress { store: self@, state: state@ };
        proof {
            lemma_ledger_kept(store0, views, is_repaired@, is_trusted, now, metrics, None);
        }
        let outcome = self.commit_insertion(state, false);
        proof {
            lemma_written_kept(store0, p, self@.ledger, views, is_trusted, None);
        }
        outcome
    }
}

} // verus!
