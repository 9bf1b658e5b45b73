//! Opening a store, and what its surroundings are told: limits and signals.

use vstd::prelude::*;
use crate::batch::ledger_sound;
use crate::blockstore::{Blockstore, BlockstoreView, SlotStats};
use crate::column::{greatest, keys_at_or_above, least, lemma_least_member, Column, Duplicate};
use crate::consistency::{consistent, ends_marked};
use crate::ledger::{Ledger, LedgerView, WriteOp, WriteOpView};
use crate::links::{links_agree, orphans_agree};
use crate::roots::or_zero;
use crate::transactions::{index_setup_writes, indexes_paired};
use crate::types::Slot;

verus! {

/// How many open files the database wants.
pub const DESIRED_NOFILE: u64 = 500000;

/// The index to write transaction statuses under: the second, where the first of the recorded
/// indexes is frozen.
pub open spec fn active_index(ledger: LedgerView) -> u64 {
    match least(keys_at_or_above(ledger.transaction_status_index, 0)) {
        Some(first) => if ledger.transaction_status_index[first].frozen {
            1
        } else {
            0
        },
        None => 0,
    }
}

/// The indexes of the transaction statuses have been set up.
pub open spec fn indexes_set_up(ledger: LedgerView) -> bool {
    least(keys_at_or_above(ledger.transaction_status_index, 0)) is Some
}

/// A store on a ledger, before anything was written.
pub open spec fn store_on(ledger: LedgerView, now: u64) -> BlockstoreView {
    BlockstoreView {
        ledger,
        journal: Seq::empty(),
        last_root: or_zero(greatest(ledger.roots.dom())),
        active_transaction_status_index: active_index(ledger),
        lowest_cleanup_slot: 0,
        no_compaction: false,
        slots_stats: Map::empty(),
        last_stats_cleanup: now,
    }
}

/// The store that is opened on a ledger. The first time, the indexes of the transaction
/// statuses are set up.
pub open spec fn opened(ledger: LedgerView, now: u64) -> BlockstoreView {
    if indexes_set_up(ledger) {
        store_on(ledger, now)
    } else {
        store_on(ledger, now).commit(index_setup_writes())
    }
}

/// What happened on the way to a higher limit of open files.
#[derive(Clone, Copy, PartialEq, Eq, Structural, Debug)]
pub enum NofileEvent {
    /// The limit was read.
    Current(u64),
    /// A higher limit was asked for, and granted or not.
    Raised(bool),
}

/// What is to be done about the limit of open files.
#[derive(Clone, Copy, PartialEq, Eq, Structural, Debug)]
pub enum NofileStep {
    /// Nothing more.
    Done,
    /// Ask for this limit.
    Raise(u64),
    /// Refuse to open the store.
    Refuse,
}

/// The next step towards enough open files. A limit that is too low is raised; where that
/// fails, the store is refused if the limit is enforced.
pub fn adjust_ulimit_nofile(enforce_ulimit_nofile: bool, event: NofileEvent) -> (result: NofileStep)
    ensures
        result == match event {
            NofileEvent::Current(limit) => if limit < DESIRED_NOFILE {
                NofileStep::Raise(DESIRED_NOFILE)
            } else {
                NofileStep::Done
            },
            NofileEvent::Raised(granted) => if !granted && enforce_ulimit_nofile {
                NofileStep::Refuse
            } else {
                NofileStep::Done
            },
        },
{
    match event {
        NofileEvent::Current(limit) => {
            if limit < DESIRED_NOFILE {
                NofileStep::Raise(DESIRED_NOFILE)
            } else {
                NofileStep::Done
            }
        },
        NofileEvent::Raised(granted) => {
            if !granted && enforce_ulimit_nofile {
                NofileStep::Refuse
            } else {
                NofileStep::Done
            }
        },
    }
}

/// What to send after an insertion.
pub struct SignalPlan {
    /// How many of the receivers of new-shred signals are to be signalled.
    pub new_shreds: usize,
    /// For each receiver of completed slots that is to be told, the slots.
    pub completed_slots: Vec<Vec<u64>>,
}

/// What to send after an insertion: a signal to each of the receivers of new-shred signals,
/// where there is something to signal, and the slots that have become full, where there are
/// any, to each of the receivers of completed slots.
pub fn send_signals(
    num_new_shreds_signals: usize,
    num_completed_slots_senders: usize,
    should_signal: bool,
    newly_completed_slots: &Vec<u64>,
) -> (result: SignalPlan)
    ensures
        result.new_shreds == if should_signal {
            num_new_shreds_signals
        } else {
            0
        },
        result.completed_slots@.len() == if newly_completed_slots@.len() > 0 {
            num_completed_slots_senders
        } else {
            0
        },
        forall|i: int|
            0 <= i < result.completed_slots@.len() ==> (#[trigger] result.completed_slots@[i])@
                == newly_completed_slots@,
{
    let new_shreds: usize = if should_signal {
        num_new_shreds_signals
    } else {
        0
    };
    let mut completed_slots: Vec<Vec<u64>> = Vec::new();
    if newly_completed_slots.len() > 0 {
        while completed_slots.len() < num_completed_slots_senders
            invariant
                completed_slots@.len() <= num_completed_slots_senders,
                forall|i: int|
                    0 <= i < completed_slots@.len() ==> (#[trigger] completed_slots@[i])@
                        == newly_completed_slots@,
            decreases num_completed_slots_senders - completed_slots@.len(),
        {
            completed_slots.push(newly_completed_slots.duplicate());
        }
    }
    SignalPlan { new_shreds, completed_slots }
}

impl Blockstore {
    /// Opens a store on a ledger. The first time, the indexes of the transaction statuses are
    /// set up. `now` is in milliseconds.
    pub fn open(ledger: Ledger, now: u64) -> (result: Self)
        ensures
            result@ == opened(ledger@, now),
    {
        let max_root: u64 = match ledger.roots.last_key() {
            Some(slot) => slot,
            None => 0,
        };
        let zero: u64 = 0;
        let first = ledger.transaction_status_index.first_from(zero);
        let mut active: u64 = 0;
        if let Some(i) = first {
            match ledger.transaction_status_index.get(&i) {
                Some(index) => {
                    if index.frozen {
                        active = 1;
                    }
                },
                None => {
                    proof {
                        lemma_least_member(
                            keys_at_or_above(ledger@.transaction_status_index, 0),
                        );
                    }
                    assert(false);
                },
            }
        }
        let journal: Vec<Vec<WriteOp>> = Vec::new();
        let slots_stats: Column<u64, SlotStats> = Column::new();
        let mut store = Blockstore {
            ledger,
            journal,
            last_root: max_root,
            active_transaction_status_index: active,
            lowest_cleanup_slot: 0,
            no_compaction: false,
            slots_stats,
            last_stats_cleanup: now,
        };
        assert(store@ =~= store_on(ledger@, now));
        if first.is_none() {
            store.initialize_transaction_status_index();
        }
        store
    }

    /// Sets whether compaction is off.
    pub fn set_no_compaction(&mut self, no_compaction: bool)
        ensures
            final(self)@ == (BlockstoreView { no_compaction, ..old(self)@ }),
    {
        self.no_compaction = no_compaction;
    }

    /// Notes that everything up to a slot has been, or is being, purged.
    pub fn set_lowest_cleanup_slot(&mut self, slot: Slot)
        ensures
            final(self)@ == (BlockstoreView { lowest_cleanup_slot: slot, ..old(self)@ }),
    {
        self.lowest_cleanup_slot = slot;
    }
}

/// A new store is sound and consistent, its ends of runs are marked, and its links and orphans
/// agree with its slots.
pub proof fn law_new_store_is_consistent()
    ensures
        ledger_sound(LedgerView::empty()),
        consistent(LedgerView::empty()),
        ends_marked(LedgerView::empty()),
        links_agree(LedgerView::empty()),
        orphans_agree(LedgerView::empty()),
{
}

/// Setting up the indexes leaves the shreds and the slots of a ledger as they are.
pub proof fn law_opening_keeps_slots(ledger: LedgerView, now: u64)
    ensures
        opened(ledger, now).ledger.meta == ledger.meta,
        opened(ledger, now).ledger.index == ledger.index,
        opened(ledger, now).ledger.erasure_meta == ledger.erasure_meta,
        opened(ledger, now).ledger.data_shreds == ledger.data_shreds,
        opened(ledger, now).ledger.code_shreds == ledger.code_shreds,
        opened(ledger, now).ledger.roots == ledger.roots,
        !indexes_set_up(ledger) ==> indexes_paired(opened(ledger, now).ledger)
            && opened(ledger, now).ledger.transaction_status_index.contains_key(0),
{
    let ops = index_setup_writes();
    let l1 = ledger.apply_all(ops.take(1));
    let l2 = ledger.apply_all(ops.take(2));
    let l3 = ledger.apply_all(ops.take(3));
    assert(ops.take(1).drop_last() =~= Seq::empty());
    assert(ledger.apply_all(Seq::<WriteOpView>::empty()) == ledger);
    assert(l1 == ledger.apply(ops[0]));
    assert(ops.take(2).drop_last() =~= ops.take(1));
    assert(l2 == l1.apply(ops[1]));
    assert(ops.take(3).drop_last() =~= ops.take(2));
    assert(l3 == l2.apply(ops[2]));
    assert(ops.drop_last() =~= ops.take(3));
    assert(ledger.apply_all(ops) == l3.apply(ops[3]));
}

} // verus!
