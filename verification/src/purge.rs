//! Purging slots.

use vstd::prelude::*;
use crate::blockstore::{Blockstore, BlockstoreView};
use crate::ledger::{op_in_range, op_views, LedgerView, WriteOp, WriteOpView};
use crate::transactions::{active_after_toggle, index_to_purge, indexes_paired, toggle_writes};
use crate::types::Slot;

verus! {

/// How the transaction columns, which are not ordered by slot, are purged.
#[derive(Clone, Copy, PartialEq, Eq, Structural, Debug)]
pub enum PurgeType {
    /// Record by record.
    Exact,
    /// A whole primary index at a time.
    PrimaryIndex,
    /// Not at all: they are filtered when the database is compacted.
    CompactionFilter,
}

/// The writes of a purge of the slots from `from` up to `to`, excluded.
pub open spec fn purge_writes(
    ledger: LedgerView,
    from: Slot,
    to: Slot,
    purge_type: PurgeType,
) -> Seq<WriteOpView> {
    let slots = seq![WriteOpView::DeleteSlots(from, to)];
    if purge_type == PurgeType::PrimaryIndex {
        let toggled = slots + toggle_writes(ledger, to);
        match index_to_purge(ledger, to) {
            Some(i) => toggled.push(WriteOpView::DeletePrimaryIndex(i)),
            None => toggled,
        }
    } else {
        slots
    }
}

impl BlockstoreView {
    /// The store after a purge of the slots from `from` up to `to`, excluded.
    pub open spec fn purged(self, from: Slot, to: Slot, purge_type: PurgeType) -> Self {
        BlockstoreView {
            active_transaction_status_index: if purge_type == PurgeType::PrimaryIndex {
                active_after_toggle(self.ledger, self.active_transaction_status_index, to)
            } else {
                self.active_transaction_status_index
            },
            ..self.commit(purge_writes(self.ledger, from, to, purge_type))
        }
    }

    /// The store after everything that is known of a slot was dropped, but for the slots that
    /// build on it.
    pub open spec fn unconfirmed_cleared(self, slot: Slot) -> Self {
        if self.ledger.meta.contains_key(slot) {
            self.purged(slot, (slot + 1) as u64, PurgeType::PrimaryIndex).commit_one(
                WriteOpView::PutMeta(slot, self.ledger.meta[slot].cleared()),
            )
        } else {
            self
        }
    }
}

impl Blockstore {
    /// Purges the slots from `from_slot` to `to_slot`, included, in one write. Transactions are
    /// purged by primary index, or left to the compaction filter.
    pub fn run_purge(&mut self, from_slot: Slot, to_slot: Slot, purge_type: PurgeType)
        requires
            to_slot < u64::MAX,
            purge_type != PurgeType::Exact,
            indexes_paired(old(self)@.ledger),
        ensures
            final(self)@ == old(self)@.purged(from_slot, (to_slot + 1) as u64, purge_type),
    {
        let end: u64 = to_slot + 1;
        let mut write_batch: Vec<WriteOp> = Vec::new();
        write_batch.push(WriteOp::DeleteSlots(from_slot, end));
        assert(op_views(write_batch@) =~= seq![WriteOpView::DeleteSlots(from_slot, end)]);
        let mut active: u64 = self.active_transaction_status_index;
        if purge_type == PurgeType::PrimaryIndex {
            let target = self.toggle_transaction_status_index(&mut write_batch, &mut active, end);
            if let Some(i) = target {
                let ghost ops = op_views(write_batch@);
                write_batch.push(WriteOp::DeletePrimaryIndex(i));
                assert(op_views(write_batch@) =~= ops.push(WriteOpView::DeletePrimaryIndex(i)));
            }
        }
        proof {
            let all = purge_writes(self@.ledger, from_slot, end, purge_type);
            assert(op_views(write_batch@) =~= all);
            assert forall|j: int| 0 <= j < write_batch@.len() implies op_in_range(
                #[trigger] write_batch@[j]@,
            ) by {
                assert(all[j] == write_batch@[j]@);
            }
        }
        self.commit(write_batch);
        self.active_transaction_status_index = active;
    }

    /// Drops everything that is known of a slot, but for the slots that build on it.
    pub fn clear_unconfirmed_slot(&mut self, slot: Slot)
        requires
            old(self)@.ledger.meta.contains_key(slot) ==> slot < u64::MAX,
            indexes_paired(old(self)@.ledger),
        ensures
            final(self)@ == old(self)@.unconfirmed_cleared(slot),
    {
        let found = self.meta(slot);
        if let Some(slot_meta) = found {
            let mut meta = slot_meta;
            self.run_purge(slot, slot, PurgeType::PrimaryIndex);
            meta.clear_unconfirmed_slot();
            self.commit_one(WriteOp::PutMeta(slot, meta));
        }
    }
}

} // verus!
