//! The columns of the ledger and the writes that change them.

use vstd::prelude::*;
use crate::column::{without_range, Column, Duplicate, SlotIndex};
use crate::meta::{
    AddressSignatureMeta, DuplicateSlotProof, DuplicateSlotProofView, ErasureMeta, FrozenHashStatus,
    Index, IndexView, PerfSample, ProgramCost, SlotMeta, SlotMetaView, TransactionStatusIndexMeta,
};
use crate::records::{Reward, StoredTransactionStatus, TransactionStatusMetaView};
use crate::types::{zero_signature, AddressKey, Pubkey, Signature, Slot, StatusKey};

verus! {

/// The columns of the ledger.
pub struct Ledger {
    /// What is known of each slot.
    pub meta: Column<u64, SlotMeta>,
    /// The slots that are dead.
    pub dead_slots: Column<u64, bool>,
    /// Proofs that a slot has two versions.
    pub duplicate_slots: Column<u64, DuplicateSlotProof>,
    /// What is known of each erasure set, by slot and set index.
    pub erasure_meta: Column<SlotIndex, ErasureMeta>,
    /// The slots whose parent is not known.
    pub orphans: Column<u64, bool>,
    /// The shreds of each slot.
    pub index: Column<u64, Index>,
    /// The data shreds, without their padding.
    pub data_shreds: Column<SlotIndex, Vec<u8>>,
    /// The coding shreds.
    pub code_shreds: Column<SlotIndex, Vec<u8>>,
    /// What came of each transaction.
    pub transaction_status: Column<StatusKey, StoredTransactionStatus>,
    /// The signatures that mention an address.
    pub address_signatures: Column<AddressKey, AddressSignatureMeta>,
    /// The memos of the transactions.
    pub transaction_memos: Column<Signature, String>,
    /// The states of the two transaction status indexes.
    pub transaction_status_index: Column<u64, TransactionStatusIndexMeta>,
    /// The rewards that were paid in a slot.
    pub rewards: Column<u64, Vec<Reward>>,
    /// The time of each block.
    pub blocktime: Column<u64, i64>,
    /// Throughput samples, by slot.
    pub perf_samples: Column<u64, PerfSample>,
    /// The height of each block.
    pub block_height: Column<u64, u64>,
    /// The measured cost of each program.
    pub program_costs: Column<Pubkey, ProgramCost>,
    /// The hash of each frozen bank.
    pub bank_hash: Column<u64, FrozenHashStatus>,
    /// The rooted slots.
    pub roots: Column<u64, bool>,
}

/// The model of a `Ledger`.
#[verifier::ext_equal]
pub struct LedgerView {
    pub meta: Map<u64, SlotMetaView>,
    pub dead_slots: Map<u64, bool>,
    pub duplicate_slots: Map<u64, DuplicateSlotProofView>,
    pub erasure_meta: Map<SlotIndex, ErasureMeta>,
    pub orphans: Map<u64, bool>,
    pub index: Map<u64, IndexView>,
    pub data_shreds: Map<SlotIndex, Seq<u8>>,
    pub code_shreds: Map<SlotIndex, Seq<u8>>,
    pub transaction_status: Map<StatusKey, Option<TransactionStatusMetaView>>,
    pub address_signatures: Map<AddressKey, AddressSignatureMeta>,
    pub transaction_memos: Map<Signature, Seq<char>>,
    pub transaction_status_index: Map<u64, TransactionStatusIndexMeta>,
    pub rewards: Map<u64, Seq<Reward>>,
    pub blocktime: Map<u64, i64>,
    pub perf_samples: Map<u64, PerfSample>,
    pub block_height: Map<u64, u64>,
    pub program_costs: Map<Pubkey, ProgramCost>,
    pub bank_hash: Map<u64, FrozenHashStatus>,
    pub roots: Map<u64, bool>,
}

impl View for Ledger {
    type V = LedgerView;

    open spec fn view(&self) -> LedgerView {
        LedgerView {
            meta: self.meta@,
            dead_slots: self.dead_slots@,
            duplicate_slots: self.duplicate_slots@,
            erasure_meta: self.erasure_meta@,
            orphans: self.orphans@,
            index: self.index@,
            data_shreds: self.data_shreds@,
            code_shreds: self.code_shreds@,
            transaction_status: self.transaction_status@,
            address_signatures: self.address_signatures@,
            transaction_memos: self.transaction_memos@,
            transaction_status_index: self.transaction_status_index@,
            rewards: self.rewards@,
            blocktime: self.blocktime@,
            perf_samples: self.perf_samples@,
            block_height: self.block_height@,
            program_costs: self.program_costs@,
            bank_hash: self.bank_hash@,
            roots: self.roots@,
        }
    }
}

/// One write to the ledger.
pub enum WriteOp {
    PutMeta(u64, SlotMeta),
    PutDeadSlot(u64, bool),
    DeleteDeadSlot(u64),
    PutDuplicateSlot(u64, DuplicateSlotProof),
    PutErasureMeta(SlotIndex, ErasureMeta),
    PutOrphan(u64, bool),
    DeleteOrphan(u64),
    PutIndex(u64, Index),
    PutDataShred(SlotIndex, Vec<u8>),
    PutCodeShred(SlotIndex, Vec<u8>),
    PutTransactionStatus(StatusKey, StoredTransactionStatus),
    PutAddressSignature(AddressKey, AddressSignatureMeta),
    PutTransactionMemo(Signature, String),
    PutTransactionStatusIndex(u64, TransactionStatusIndexMeta),
    PutRewards(u64, Vec<Reward>),
    PutBlockTime(u64, i64),
    PutPerfSample(u64, PerfSample),
    PutBlockHeight(u64, u64),
    PutProgramCost(Pubkey, ProgramCost),
    DeleteProgramCost(Pubkey),
    PutBankHash(u64, FrozenHashStatus),
    PutRoot(u64, bool),
    /// Deletes what belongs to the slots from the first up to the second, excluded, but for
    /// the transaction columns.
    DeleteSlots(Slot, Slot),
    /// Deletes the transaction statuses and address signatures of one primary index.
    DeletePrimaryIndex(u64),
}

/// The model of a `WriteOp`.
pub enum WriteOpView {
    PutMeta(u64, SlotMetaView),
    PutDeadSlot(u64, bool),
    DeleteDeadSlot(u64),
    PutDuplicateSlot(u64, DuplicateSlotProofView),
    PutErasureMeta(SlotIndex, ErasureMeta),
    PutOrphan(u64, bool),
    DeleteOrphan(u64),
    PutIndex(u64, IndexView),
    PutDataShred(SlotIndex, Seq<u8>),
    PutCodeShred(SlotIndex, Seq<u8>),
    PutTransactionStatus(StatusKey, Option<TransactionStatusMetaView>),
    PutAddressSignature(AddressKey, AddressSignatureMeta),
    PutTransactionMemo(Signature, Seq<char>),
    PutTransactionStatusIndex(u64, TransactionStatusIndexMeta),
    PutRewards(u64, Seq<Reward>),
    PutBlockTime(u64, i64),
    PutPerfSample(u64, PerfSample),
    PutBlockHeight(u64, u64),
    PutProgramCost(Pubkey, ProgramCost),
    DeleteProgramCost(Pubkey),
    PutBankHash(u64, FrozenHashStatus),
    PutRoot(u64, bool),
    DeleteSlots(Slot, Slot),
    DeletePrimaryIndex(u64),
}

impl View for WriteOp {
    type V = WriteOpView;

    open spec fn view(&self) -> WriteOpView {
        match self {
            WriteOp::PutMeta(k, v) => WriteOpView::PutMeta(*k, v@),
            WriteOp::PutDeadSlot(k, v) => WriteOpView::PutDeadSlot(*k, v@),
            WriteOp::DeleteDeadSlot(k) => WriteOpView::DeleteDeadSlot(*k),
            WriteOp::PutDuplicateSlot(k, v) => WriteOpView::PutDuplicateSlot(*k, v@),
            WriteOp::PutErasureMeta(k, v) => WriteOpView::PutErasureMeta(*k, v@),
            WriteOp::PutOrphan(k, v) => WriteOpView::PutOrphan(*k, v@),
            WriteOp::DeleteOrphan(k) => WriteOpView::DeleteOrphan(*k),
            WriteOp::PutIndex(k, v) => WriteOpView::PutIndex(*k, v@),
            WriteOp::PutDataShred(k, v) => WriteOpView::PutDataShred(*k, v@),
            WriteOp::PutCodeShred(k, v) => WriteOpView::PutCodeShred(*k, v@),
            WriteOp::PutTransactionStatus(k, v) => WriteOpView::PutTransactionStatus(*k, v@),
            WriteOp::PutAddressSignature(k, v) => WriteOpView::PutAddressSignature(*k, v@),
            WriteOp::PutTransactionMemo(k, v) => WriteOpView::PutTransactionMemo(*k, v@),
            WriteOp::PutTransactionStatusIndex(k, v) => WriteOpView::PutTransactionStatusIndex(*k, v@),
            WriteOp::PutRewards(k, v) => WriteOpView::PutRewards(*k, v@),
            WriteOp::PutBlockTime(k, v) => WriteOpView::PutBlockTime(*k, v@),
            WriteOp::PutPerfSample(k, v) => WriteOpView::PutPerfSample(*k, v@),
            WriteOp::PutBlockHeight(k, v) => WriteOpView::PutBlockHeight(*k, v@),
            WriteOp::PutProgramCost(k, v) => WriteOpView::PutProgramCost(*k, v@),
            WriteOp::DeleteProgramCost(k) => WriteOpView::DeleteProgramCost(*k),
            WriteOp::PutBankHash(k, v) => WriteOpView::PutBankHash(*k, v@),
            WriteOp::PutRoot(k, v) => WriteOpView::PutRoot(*k, v@),
            WriteOp::DeleteSlots(from, to) => WriteOpView::DeleteSlots(*from, *to),
            WriteOp::DeletePrimaryIndex(i) => WriteOpView::DeletePrimaryIndex(*i),
        }
    }
}

/// The models of the writes in a vector.
pub open spec fn op_views(ops: Seq<WriteOp>) -> Seq<WriteOpView> {
    Seq::new(ops.len(), |i: int| ops[i]@)
}

/// `m` without the keys of the slots from `from` up to `to`, excluded.
pub open spec fn without_slots<W>(m: Map<SlotIndex, W>, from: Slot, to: Slot) -> Map<SlotIndex, W> {
    without_range(m, SlotIndex { slot: from, index: 0 }, SlotIndex { slot: to, index: 0 })
}

/// The first key of a primary index in the status column.
pub open spec fn first_status_key(i: u64) -> StatusKey {
    StatusKey { primary_index: i, signature: zero_signature(), slot: 0 }
}

/// The first key of a primary index in the address column.
pub open spec fn first_address_key(i: u64) -> AddressKey {
    AddressKey {
        primary_index: i,
        address: Pubkey { w0: 0, w1: 0 },
        slot: 0,
        signature: zero_signature(),
    }
}

impl LedgerView {
    /// The ledger that holds nothing.
    pub open spec fn empty() -> Self {
        LedgerView {
            meta: Map::empty(),
            dead_slots: Map::empty(),
            duplicate_slots: Map::empty(),
            erasure_meta: Map::empty(),
            orphans: Map::empty(),
            index: Map::empty(),
            data_shreds: Map::empty(),
            code_shreds: Map::empty(),
            transaction_status: Map::empty(),
            address_signatures: Map::empty(),
            transaction_memos: Map::empty(),
            transaction_status_index: Map::empty(),
            rewards: Map::empty(),
            blocktime: Map::empty(),
            perf_samples: Map::empty(),
            block_height: Map::empty(),
            program_costs: Map::empty(),
            bank_hash: Map::empty(),
            roots: Map::empty(),
        }
    }

    /// The ledger without what belongs to the slots from `from` up to `to`, excluded, but for
    /// the transaction columns.
    pub open spec fn without(self, from: Slot, to: Slot) -> Self {
        LedgerView {
            meta: without_range(self.meta, from, to),
            bank_hash: without_range(self.bank_hash, from, to),
            roots: without_range(self.roots, from, to),
            dead_slots: without_range(self.dead_slots, from, to),
            duplicate_slots: without_range(self.duplicate_slots, from, to),
            orphans: without_range(self.orphans, from, to),
            index: without_range(self.index, from, to),
            rewards: without_range(self.rewards, from, to),
            blocktime: without_range(self.blocktime, from, to),
            perf_samples: without_range(self.perf_samples, from, to),
            block_height: without_range(self.block_height, from, to),
            data_shreds: without_slots(self.data_shreds, from, to),
            code_shreds: without_slots(self.code_shreds, from, to),
            erasure_meta: without_slots(self.erasure_meta, from, to),
            ..self
        }
    }

    /// The ledger without the transaction statuses and address signatures of a primary index.
    pub open spec fn without_primary_index(self, i: u64) -> Self {
        LedgerView {
            transaction_status: without_range(
                self.transaction_status,
                first_status_key(i),
                first_status_key((i + 1) as u64),
            ),
            address_signatures: without_range(
                self.address_signatures,
                first_address_key(i),
                first_address_key((i + 1) as u64),
            ),
            ..self
        }
    }

    /// The ledger after one write.
    pub open spec fn apply(self, op: WriteOpView) -> Self {
        match op {
            WriteOpView::PutMeta(k, v) => LedgerView { meta: self.meta.insert(k, v), ..self },
            WriteOpView::PutDeadSlot(k, v) => LedgerView { dead_slots: self.dead_slots.insert(k, v), ..self },
            WriteOpView::DeleteDeadSlot(k) => LedgerView { dead_slots: self.dead_slots.remove(k), ..self },
            WriteOpView::PutDuplicateSlot(k, v) => LedgerView { duplicate_slots: self.duplicate_slots.insert(k, v), ..self },
            WriteOpView::PutErasureMeta(k, v) => LedgerView { erasure_meta: self.erasure_meta.insert(k, v), ..self },
            WriteOpView::PutOrphan(k, v) => LedgerView { orphans: self.orphans.insert(k, v), ..self },
            WriteOpView::DeleteOrphan(k) => LedgerView { orphans: self.orphans.remove(k), ..self },
            WriteOpView::PutIndex(k, v) => LedgerView { index: self.index.insert(k, v), ..self },
            WriteOpView::PutDataShred(k, v) => LedgerView { data_shreds: self.data_shreds.insert(k, v), ..self },
            WriteOpView::PutCodeShred(k, v) => LedgerView { code_shreds: self.code_shreds.insert(k, v), ..self },
            WriteOpView::PutTransactionStatus(k, v) => LedgerView { transaction_status: self.transaction_status.insert(k, v), ..self },
            WriteOpView::PutAddressSignature(k, v) => LedgerView { address_signatures: self.address_signatures.insert(k, v), ..self },
            WriteOpView::PutTransactionMemo(k, v) => LedgerView { transaction_memos: self.transaction_memos.insert(k, v), ..self },
            WriteOpView::PutTransactionStatusIndex(k, v) => LedgerView { transaction_status_index: self.transaction_status_index.insert(k, v), ..self },
            WriteOpView::PutRewards(k, v) => LedgerView { rewards: self.rewards.insert(k, v), ..self },
            WriteOpView::PutBlockTime(k, v) => LedgerView { blocktime: self.blocktime.insert(k, v), ..self },
            WriteOpView::PutPerfSample(k, v) => LedgerView { perf_samples: self.perf_samples.insert(k, v), ..self },
            WriteOpView::PutBlockHeight(k, v) => LedgerView { block_height: self.block_height.insert(k, v), ..self },
            WriteOpView::PutProgramCost(k, v) => LedgerView { program_costs: self.program_costs.insert(k, v), ..self },
            WriteOpView::DeleteProgramCost(k) => LedgerView { program_costs: self.program_costs.remove(k), ..self },
            WriteOpView::PutBankHash(k, v) => LedgerView { bank_hash: self.bank_hash.insert(k, v), ..self },
            WriteOpView::PutRoot(k, v) => LedgerView { roots: self.roots.insert(k, v), ..self },
            WriteOpView::DeleteSlots(from, to) => self.without(from, to),
            WriteOpView::DeletePrimaryIndex(i) => self.without_primary_index(i),
        }
    }

    /// The ledger after a batch of writes, one after the other.
    pub open spec fn apply_all(self, ops: Seq<WriteOpView>) -> Self
        decreases ops.len(),
    {
        if ops.len() == 0 {
            self
        } else {
            self.apply_all(ops.drop_last()).apply(ops.last())
        }
    }
}

/// Writing two batches is writing their concatenation.
pub proof fn lemma_apply_all_concat(ledger: LedgerView, a: Seq<WriteOpView>, b: Seq<WriteOpView>)
    ensures
        ledger.apply_all(a + b) == ledger.apply_all(a).apply_all(b),
    decreases b.len(),
{
    if b.len() == 0 {
        assert(a + b =~= a);
    } else {
        assert((a + b).drop_last() =~= a + b.drop_last());
        assert((a + b).last() == b.last());
        lemma_apply_all_concat(ledger, a, b.drop_last());
    }
}

/// Whether a write names a primary index that has a successor.
pub open spec fn op_in_range(op: WriteOpView) -> bool {
    op matches WriteOpView::DeletePrimaryIndex(i) ==> i < u64::MAX
}

impl Ledger {
    /// A ledger that holds nothing.
    pub fn new() -> (result: Self)
        ensures
            result@ == LedgerView::empty(),
    {
        Ledger {
            meta: Column::new(),
            dead_slots: Column::new(),
            duplicate_slots: Column::new(),
            erasure_meta: Column::new(),
            orphans: Column::new(),
            index: Column::new(),
            data_shreds: Column::new(),
            code_shreds: Column::new(),
            transaction_status: Column::new(),
            address_signatures: Column::new(),
            transaction_memos: Column::new(),
            transaction_status_index: Column::new(),
            rewards: Column::new(),
            blocktime: Column::new(),
            perf_samples: Column::new(),
            block_height: Column::new(),
            program_costs: Column::new(),
            bank_hash: Column::new(),
            roots: Column::new(),
        }
    }

    /// Deletes what belongs to the slots from `from` up to `to`, excluded, but for the
    /// transaction columns.
    fn delete_slots(&mut self, from: Slot, to: Slot)
        ensures
            final(self)@ == old(self)@.without(from, to),
    {
        let first = SlotIndex { slot: from, index: 0 };
        let end = SlotIndex { slot: to, index: 0 };
        self.meta.delete_range(&from, &to);
        self.bank_hash.delete_range(&from, &to);
        self.roots.delete_range(&from, &to);
        self.dead_slots.delete_range(&from, &to);
        self.duplicate_slots.delete_range(&from, &to);
        self.orphans.delete_range(&from, &to);
        self.index.delete_range(&from, &to);
        self.rewards.delete_range(&from, &to);
        self.blocktime.delete_range(&from, &to);
        self.perf_samples.delete_range(&from, &to);
        self.block_height.delete_range(&from, &to);
        self.data_shreds.delete_range(&first, &end);
        self.code_shreds.delete_range(&first, &end);
        self.erasure_meta.delete_range(&first, &end);
    }

    /// Deletes the transaction statuses and address signatures of a primary index.
    fn delete_primary_index(&mut self, i: u64)
        requires
            i < u64::MAX,
        ensures
            final(self)@ == old(self)@.without_primary_index(i),
    {
        let zero = Signature { w0: 0, w1: 0, w2: 0, w3: 0 };
        let nobody = Pubkey { w0: 0, w1: 0 };
        let next: u64 = i + 1;
        self.transaction_status.delete_range(
            &StatusKey { primary_index: i, signature: zero, slot: 0 },
            &StatusKey { primary_index: next, signature: zero, slot: 0 },
        );
        self.address_signatures.delete_range(
            &AddressKey { primary_index: i, address: nobody, slot: 0, signature: zero },
            &AddressKey { primary_index: next, address: nobody, slot: 0, signature: zero },
        );
    }

    /// Makes one write.
    pub fn apply(&mut self, op: &WriteOp)
        requires
            op_in_range(op@),
        ensures
            final(self)@ == old(self)@.apply(op@),
    {
        match op {
            WriteOp::PutMeta(k, v) => self.meta.put(*k, v.duplicate()),
            WriteOp::PutDeadSlot(k, v) => self.dead_slots.put(*k, *v),
            WriteOp::DeleteDeadSlot(k) => {
                let _ = self.dead_slots.remove(k);
            },
            WriteOp::PutDuplicateSlot(k, v) => self.duplicate_slots.put(*k, v.duplicate()),
            WriteOp::PutErasureMeta(k, v) => self.erasure_meta.put(*k, *v),
            WriteOp::PutOrphan(k, v) => self.orphans.put(*k, *v),
            WriteOp::DeleteOrphan(k) => {
                let _ = self.orphans.remove(k);
            },
            WriteOp::PutIndex(k, v) => self.index.put(*k, v.duplicate()),
            WriteOp::PutDataShred(k, v) => self.data_shreds.put(*k, v.duplicate()),
            WriteOp::PutCodeShred(k, v) => self.code_shreds.put(*k, v.duplicate()),
            WriteOp::PutTransactionStatus(k, v) => self.transaction_status.put(*k, v.duplicate()),
            WriteOp::PutAddressSignature(k, v) => self.address_signatures.put(*k, *v),
            WriteOp::PutTransactionMemo(k, v) => self.transaction_memos.put(*k, v.duplicate()),
            WriteOp::PutTransactionStatusIndex(k, v) => self.transaction_status_index.put(*k, *v),
            WriteOp::PutRewards(k, v) => self.rewards.put(*k, v.duplicate()),
            WriteOp::PutBlockTime(k, v) => self.blocktime.put(*k, *v),
            WriteOp::PutPerfSample(k, v) => self.perf_samples.put(*k, *v),
            WriteOp::PutBlockHeight(k, v) => self.block_height.put(*k, *v),
            WriteOp::PutProgramCost(k, v) => self.program_costs.put(*k, *v),
            WriteOp::DeleteProgramCost(k) => {
                let _ = self.program_costs.remove(k);
            },
            WriteOp::PutBankHash(k, v) => self.bank_hash.put(*k, *v),
            WriteOp::PutRoot(k, v) => self.roots.put(*k, *v),
            WriteOp::DeleteSlots(from, to) => self.delete_slots(*from, *to),
            WriteOp::DeletePrimaryIndex(i) => self.delete_primary_index(*i),
        }
    }

    /// Makes a batch of writes, one after the other.
    pub fn apply_all(&mut self, ops: &Vec<WriteOp>)
        requires
            forall|i: int| 0 <= i < ops@.len() ==> op_in_range(#[trigger] ops@[i]@),
        ensures
            final(self)@ == old(self)@.apply_all(op_views(ops@)),
    {
        let ghost views = op_views(ops@);
        let mut i: usize = 0;
        assert(views.take(0) =~= Seq::empty());
        while i < ops.len()
            invariant
                0 <= i <= ops@.len(),
                views == op_views(ops@),
                self@ == old(self)@.apply_all(views.take(i as int)),
                forall|i: int| 0 <= i < ops@.len() ==> op_in_range(#[trigger] ops@[i]@),
            decreases ops@.len() - i,
        {
            self.apply(&ops[i]);
            proof {
                assert(views.take(i + 1).drop_last() =~= views.take(i as int));
                assert(views.take(i + 1).last() == ops@[i as int]@);
            }
            i += 1;
        }
        assert(views.take(ops@.len() as int) =~= views);
    }
}

} // verus!
