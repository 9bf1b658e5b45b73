//! The store: the ledger's columns, the writes made to them since they were last taken, and
//! the state that is kept beside the columns.

use vstd::prelude::*;
use crate::column::{Column, Duplicate};
use crate::ledger::{op_in_range, op_views, Ledger, LedgerView, WriteOp, WriteOpView};
use crate::meta::{DuplicateSlotProof, DuplicateSlotProofView};
use crate::types::Slot;

verus! {

/// How the shreds of a slot came, other than by the usual way.
#[derive(Clone, Copy, PartialEq, Eq, Structural, Debug)]
pub struct SlotStats {
    pub num_repaired: usize,
    pub num_recovered: usize,
}

impl View for SlotStats {
    type V = SlotStats;

    open spec fn view(&self) -> SlotStats {
        *self
    }
}

impl Duplicate for SlotStats {
    fn duplicate(&self) -> (result: Self) {
        *self
    }
}

/// The ledger store.
pub struct Blockstore {
    pub ledger: Ledger,
    /// The batches written since the journal was last taken, oldest first.
    pub journal: Vec<Vec<WriteOp>>,
    /// The highest root.
    pub last_root: Slot,
    /// The primary index that transaction statuses are written under.
    pub active_transaction_status_index: u64,
    /// Everything below this slot has been, or is being, purged.
    pub lowest_cleanup_slot: Slot,
    pub no_compaction: bool,
    pub slots_stats: Column<u64, SlotStats>,
    /// When the statistics of old slots were last dropped, in milliseconds.
    pub last_stats_cleanup: u64,
}

/// The model of a `Blockstore`.
#[verifier::ext_equal]
pub struct BlockstoreView {
    pub ledger: LedgerView,
    pub journal: Seq<Seq<WriteOpView>>,
    pub last_root: Slot,
    pub active_transaction_status_index: u64,
    pub lowest_cleanup_slot: Slot,
    pub no_compaction: bool,
    pub slots_stats: Map<u64, SlotStats>,
    pub last_stats_cleanup: u64,
}

/// The models of the batches in a journal.
pub open spec fn batch_views(batches: Seq<Vec<WriteOp>>) -> Seq<Seq<WriteOpView>> {
    Seq::new(batches.len(), |i: int| op_views(batches[i]@))
}

impl View for Blockstore {
    type V = BlockstoreView;

    open spec fn view(&self) -> BlockstoreView {
        BlockstoreView {
            ledger: self.ledger@,
            journal: batch_views(self.journal@),
            last_root: self.last_root,
            active_transaction_status_index: self.active_transaction_status_index,
            lowest_cleanup_slot: self.lowest_cleanup_slot,
            no_compaction: self.no_compaction,
            slots_stats: self.slots_stats@,
            last_stats_cleanup: self.last_stats_cleanup,
        }
    }
}

/// The ledger after the batches of a journal, one after the other.
pub open spec fn replay(ledger: LedgerView, journal: Seq<Seq<WriteOpView>>) -> LedgerView
    decreases journal.len(),
{
    if journal.len() == 0 {
        ledger
    } else {
        replay(ledger, journal.drop_last()).apply_all(journal.last())
    }
}

impl BlockstoreView {
    /// The store after one batch of writes, which the journal then holds too.
    pub open spec fn commit(self, ops: Seq<WriteOpView>) -> Self {
        BlockstoreView {
            ledger: self.ledger.apply_all(ops),
            journal: self.journal.push(ops),
            ..self
        }
    }

    /// The store after one write.
    pub open spec fn commit_one(self, op: WriteOpView) -> Self {
        self.commit(seq![op])
    }

    /// The store after a proof that `slot` has two versions came up. The first proof stays.
    pub open spec fn with_duplicate(self, slot: Slot, shred1: Seq<u8>, shred2: Seq<u8>) -> Self {
        if self.ledger.duplicate_slots.contains_key(slot) {
            self
        } else {
            self.commit_one(
                WriteOpView::PutDuplicateSlot(slot, DuplicateSlotProofView { shred1, shred2 }),
            )
        }
    }
}

/// Every write is in the journal: a ledger that is the replay of the journal on some base
/// stays so when a batch is written.
pub proof fn law_journal_replays(base: LedgerView, store: BlockstoreView, ops: Seq<WriteOpView>)
    requires
        store.ledger == replay(base, store.journal),
    ensures
        store.commit(ops).ledger == replay(base, store.commit(ops).journal),
{
    assert(store.journal.push(ops).drop_last() =~= store.journal);
}

/// One write is the last step of a batch.
pub proof fn lemma_apply_one(ledger: LedgerView, op: WriteOpView)
    ensures
        ledger.apply_all(seq![op]) == ledger.apply(op),
{
    assert(seq![op].drop_last() =~= Seq::<WriteOpView>::empty());
    assert(ledger.apply_all(Seq::<WriteOpView>::empty()) == ledger);
    assert(seq![op].last() == op);
}

impl Blockstore {
    /// Writes a batch.
    pub fn commit(&mut self, ops: Vec<WriteOp>)
        requires
            forall|i: int| 0 <= i < ops@.len() ==> op_in_range(#[trigger] ops@[i]@),
        ensures
            final(self)@ == old(self)@.commit(op_views(ops@)),
    {
        self.ledger.apply_all(&ops);
        self.journal.push(ops);
        assert(batch_views(self.journal@) =~= batch_views(old(self).journal@).push(
            op_views(ops@),
        ));
    }

    /// Makes one write.
    pub fn commit_one(&mut self, op: WriteOp)
        requires
            op_in_range(op@),
        ensures
            final(self)@ == old(self)@.commit_one(op@),
            final(self)@.ledger == old(self)@.ledger.apply(op@),
    {
        let mut ops: Vec<WriteOp> = Vec::new();
        ops.push(op);
        proof {
            assert(op_views(ops@) =~= seq![op@]);
            lemma_apply_one(self@.ledger, op@);
        }
        self.commit(ops);
    }

    /// Hands out the batches written since this was last called, oldest first.
    pub fn take_journal(&mut self) -> (result: Vec<Vec<WriteOp>>)
        ensures
            batch_views(result@) == old(self)@.journal,
            final(self)@ == (BlockstoreView { journal: Seq::empty(), ..old(self)@ }),
    {
        let mut journal: Vec<Vec<WriteOp>> = Vec::new();
        std::mem::swap(&mut journal, &mut self.journal);
        assert(batch_views(self.journal@) =~= Seq::empty());
        journal
    }

    /// Whether a proof is kept that `slot` has two versions.
    pub fn has_duplicate_shreds_in_slot(&self, slot: Slot) -> (result: bool)
        ensures
            result == self@.ledger.duplicate_slots.contains_key(slot),
    {
        self.ledger.duplicate_slots.contains(&slot)
    }

    /// Keeps a proof that `slot` has two versions, unless there is one.
    pub fn store_duplicate_if_not_existing(
        &mut self,
        slot: Slot,
        shred1: Vec<u8>,
        shred2: Vec<u8>,
    )
        ensures
            final(self)@ == old(self)@.with_duplicate(slot, shred1@, shred2@),
    {
        if !self.has_duplicate_shreds_in_slot(slot) {
            self.store_duplicate_slot(slot, shred1, shred2);
        }
    }

    /// Keeps a proof that `slot` has two versions, in place of an earlier one.
    pub fn store_duplicate_slot(&mut self, slot: Slot, shred1: Vec<u8>, shred2: Vec<u8>)
        ensures
            final(self)@ == old(self)@.commit_one(
                WriteOpView::PutDuplicateSlot(
                    slot,
                    DuplicateSlotProofView { shred1: shred1@, shred2: shred2@ },
                ),
            ),
    {
        self.commit_one(WriteOp::PutDuplicateSlot(slot, DuplicateSlotProof { shred1, shred2 }));
    }

    /// The proof that `slot` has two versions.
    pub fn get_duplicate_slot(&self, slot: u64) -> (result: Option<DuplicateSlotProof>)
        ensures
            result is Some <==> self@.ledger.duplicate_slots.contains_key(slot),
            result is Some ==> result->0@ == self@.ledger.duplicate_slots[slot],
    {
        match self.ledger.duplicate_slots.get(&slot) {
            Some(proof_of_slot) => Some(proof_of_slot.duplicate()),
            None => None,
        }
    }
}

} // verus!
