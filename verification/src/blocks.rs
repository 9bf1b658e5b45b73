//! Blocks and transactions, put together from entries, statuses and the block columns.

use vstd::prelude::*;
use crate::blockstore::{Blockstore, BlockstoreView};
use crate::column::Duplicate;
use crate::ledger::{LedgerView, WriteOp, WriteOpView};
use crate::meta::SlotMetaView;
use crate::records::{
    entry_views, transaction_views, with_status_views, BlockstoreError, ConfirmedBlock,
    ConfirmedBlockView, ConfirmedTransaction, ConfirmedTransactionView, Entry, EntryView, Result,
    Reward, TransactionWithStatusMeta, TransactionWithStatusMetaView, VersionedTransaction,
    VersionedTransactionView,
};
use crate::roots::{confirmed_unrooted, descends, rooted};
use crate::slot_entries::{cleaned_up, slot_entries, slot_readable};
use crate::transactions::{status_at, transaction_status};
use crate::types::{zero_hash, Blockhash, Signature, Slot, UnixTimestamp};

verus! {

/// The transactions of some entries, in their order.
pub open spec fn transactions_of(entries: Seq<EntryView>) -> Seq<VersionedTransactionView>
    decreases entries.len(),
{
    if entries.len() == 0 {
        Seq::empty()
    } else {
        transactions_of(entries.drop_last()) + entries.last().transactions
    }
}

/// Every transaction is of the unversioned format.
pub open spec fn all_legacy(transactions: Seq<VersionedTransactionView>) -> bool {
    forall|i: int| 0 <= i < transactions.len() ==> (#[trigger] transactions[i]).is_legacy
}

/// A transaction of a slot with its status, where that is known.
pub open spec fn with_status(ledger: LedgerView, slot: Slot, t: VersionedTransactionView) -> TransactionWithStatusMetaView {
    TransactionWithStatusMetaView {
        transaction: t.legacy()->0,
        meta: status_at(ledger, t.signature, slot),
    }
}

/// The transactions of a slot with their statuses. Transactions of a versioned format are not
/// supported.
pub open spec fn with_statuses(
    ledger: LedgerView,
    slot: Slot,
    transactions: Seq<VersionedTransactionView>,
) -> core::result::Result<Seq<TransactionWithStatusMetaView>, BlockstoreError> {
    if all_legacy(transactions) {
        Ok(Seq::new(transactions.len(), |i: int| with_status(ledger, slot, transactions[i])))
    } else {
        Err(BlockstoreError::UnsupportedTransactionVersion)
    }
}

/// The entries of the parent of a slot, or none where they cannot be had.
pub open spec fn parent_entries(store: BlockstoreView, meta: SlotMetaView) -> Seq<EntryView> {
    match meta.parent_slot {
        None => Seq::empty(),
        Some(parent) => match slot_entries(store, parent, 0) {
            Ok(entries) => entries,
            Err(_) => Seq::empty(),
        },
    }
}

/// The rewards of a slot.
pub open spec fn rewards_of(ledger: LedgerView, slot: Slot) -> Seq<Reward> {
    if ledger.rewards.contains_key(slot) {
        ledger.rewards[slot]
    } else {
        Seq::empty()
    }
}

/// The time of a block.
pub open spec fn block_time_of(ledger: LedgerView, slot: Slot) -> Option<UnixTimestamp> {
    if ledger.blocktime.contains_key(slot) {
        Some(ledger.blocktime[slot])
    } else {
        None
    }
}

/// The height of a block.
pub open spec fn block_height_of(ledger: LedgerView, slot: Slot) -> Option<u64> {
    if ledger.block_height.contains_key(slot) {
        Some(ledger.block_height[slot])
    } else {
        None
    }
}

/// The block that the entries of a full slot make.
pub open spec fn block_of(
    store: BlockstoreView,
    slot: Slot,
    meta: SlotMetaView,
    entries: Seq<EntryView>,
    parents: Seq<EntryView>,
) -> core::result::Result<ConfirmedBlockView, BlockstoreError> {
    match with_statuses(store.ledger, slot, transactions_of(entries)) {
        Err(e) => Err(e),
        Ok(transactions) => Ok(
            ConfirmedBlockView {
                previous_blockhash: if parents.len() == 0 {
                    zero_hash()
                } else {
                    parents.last().hash
                },
                blockhash: entries.last().hash,
                parent_slot: meta.parent_slot->0,
                transactions,
                rewards: rewards_of(store.ledger, slot),
                block_time: block_time_of(store.ledger, slot),
                block_height: block_height_of(store.ledger, slot),
            },
        ),
    }
}

/// The block of a slot, or why there is none: the slot is not full or has no entries, its
/// entries are not given out, its parent has none though they are required, or it holds a
/// transaction that is not supported.
pub open spec fn complete_block(
    store: BlockstoreView,
    slot: Slot,
    require_previous_blockhash: bool,
) -> core::result::Result<ConfirmedBlockView, BlockstoreError> {
    if !store.ledger.meta.contains_key(slot) || !store.ledger.meta[slot].is_full() {
        Err(BlockstoreError::SlotUnavailable)
    } else {
        let meta = store.ledger.meta[slot];
        match slot_entries(store, slot, 0) {
            Err(e) => Err(e),
            Ok(entries) => {
                let parents = parent_entries(store, meta);
                if entries.len() == 0 {
                    Err(BlockstoreError::SlotUnavailable)
                } else if parents.len() == 0 && require_previous_blockhash {
                    Err(BlockstoreError::ParentEntriesUnavailable)
                } else {
                    block_of(store, slot, meta, entries, parents)
                }
            },
        }
    }
}

/// The block of a slot can be asked for: the entries of a full slot can be, and, if there are
/// some, those of its parent too. A slot whose block is given out has a parent.
pub open spec fn block_readable(
    store: BlockstoreView,
    slot: Slot,
    require_previous_blockhash: bool,
) -> bool {
    store.ledger.meta.contains_key(slot) && store.ledger.meta[slot].is_full() ==> {
        &&& slot_readable(store, slot, 0, false)
        &&& slot_entries(store, slot, 0) matches Ok(entries) ==> entries.len() > 0 ==> {
            match store.ledger.meta[slot].parent_slot {
                Some(parent) => slot_readable(store, parent, 0, false),
                None => require_previous_blockhash,
            }
        }
    }
}

/// The block of a rooted slot, or why there is none.
pub open spec fn rooted_block(
    store: BlockstoreView,
    slot: Slot,
    require_previous_blockhash: bool,
) -> core::result::Result<ConfirmedBlockView, BlockstoreError> {
    if cleaned_up(store, slot) {
        Err(BlockstoreError::SlotCleanedUp)
    } else if rooted(store.ledger, slot) {
        complete_block(store, slot, require_previous_blockhash)
    } else {
        Err(BlockstoreError::SlotNotRooted)
    }
}

/// The first of some transactions that is known by a signature.
pub open spec fn transaction_with(
    transactions: Seq<VersionedTransactionView>,
    signature: Signature,
) -> Option<VersionedTransactionView>
    decreases transactions.len(),
{
    if transactions.len() == 0 {
        None
    } else if transactions[0].signature == signature {
        Some(transactions[0])
    } else {
        transaction_with(transactions.drop_first(), signature)
    }
}

/// The transaction of a slot that is known by a signature.
pub open spec fn transaction_in_slot(
    store: BlockstoreView,
    slot: Slot,
    signature: Signature,
) -> core::result::Result<Option<VersionedTransactionView>, BlockstoreError> {
    match slot_entries(store, slot, 0) {
        Err(e) => Err(e),
        Ok(entries) => Ok(transaction_with(transactions_of(entries), signature)),
    }
}

/// A transaction with its status and its place in the ledger, where its slot is rooted or one
/// of those given as confirmed.
pub open spec fn transaction_with_status(
    store: BlockstoreView,
    signature: Signature,
    unrooted: Seq<Slot>,
) -> core::result::Result<Option<ConfirmedTransactionView>, BlockstoreError> {
    match transaction_status(store, signature, unrooted) {
        None => Ok(None),
        Some(found) => {
            let slot = found.0;
            match transaction_in_slot(store, slot, signature) {
                Err(e) => Err(e),
                Ok(None) => Err(BlockstoreError::TransactionStatusSlotMismatch),
                Ok(Some(t)) => match t.legacy() {
                    None => Err(BlockstoreError::UnsupportedTransactionVersion),
                    Some(transaction) => if cleaned_up(store, slot) {
                        Err(BlockstoreError::SlotCleanedUp)
                    } else {
                        Ok(
                            Some(
                                ConfirmedTransactionView {
                                    slot,
                                    transaction: TransactionWithStatusMetaView {
                                        transaction,
                                        meta: Some(found.1),
                                    },
                                    block_time: block_time_of(store.ledger, slot),
                                },
                            ),
                        )
                    },
                },
            }
        },
    }
}

/// A transaction can be asked for: the entries of the slot of its status can be.
pub open spec fn transaction_readable(
    store: BlockstoreView,
    signature: Signature,
    unrooted: Seq<Slot>,
) -> bool {
    &&& store.lowest_cleanup_slot < u64::MAX
    &&& transaction_status(store, signature, unrooted) matches Some(found) ==> slot_readable(
        store,
        found.0,
        0,
        false,
    )
}

/// The model of the result of a block request.
pub open spec fn block_result(result: Result<ConfirmedBlock>) -> core::result::Result<
    ConfirmedBlockView,
    BlockstoreError,
> {
    match result {
        Ok(block) => Ok(block@),
        Err(e) => Err(e),
    }
}

/// The model of the result of a transaction request.
pub open spec fn transaction_result(result: Result<Option<ConfirmedTransaction>>) -> core::result::Result<
    Option<ConfirmedTransactionView>,
    BlockstoreError,
> {
    match result {
        Ok(Some(t)) => Ok(Some(t@)),
        Ok(None) => Ok(None),
        Err(e) => Err(e),
    }
}

/// The hash of the last of some entries.
pub fn get_last_hash(entries: &Vec<Entry>) -> (result: Option<Blockhash>)
    ensures
        result == if entries@.len() == 0 {
            None
        } else {
            Some(entry_views(entries@).last().hash)
        },
{
    let n: usize = entries.len();
    if n == 0 {
        None
    } else {
        assert(entry_views(entries@).last() == entries@[n - 1]@);
        Some(entries[n - 1].hash)
    }
}

/// Collects the transactions of some entries.
fn collect_transactions(entries: &Vec<Entry>) -> (result: Vec<VersionedTransaction>)
    ensures
        transaction_views(result@) == transactions_of(entry_views(entries@)),
{
    let mut result: Vec<VersionedTransaction> = Vec::new();
    let ghost views = entry_views(entries@);
    let mut i: usize = 0;
    assert(views.take(0) =~= Seq::empty());
    assert(transaction_views(result@) =~= Seq::empty());
    while i < entries.len()
        invariant
            0 <= i <= entries@.len(),
            views == entry_views(entries@),
            transaction_views(result@) == transactions_of(views.take(i as int)),
        decreases entries@.len() - i,
    {
        let entry = &entries[i];
        let ghost before = transaction_views(result@);
        let ghost own = transaction_views(entry.transactions@);
        proof {
            assert(views.take(i + 1).drop_last() =~= views.take(i as int));
            assert(views.take(i + 1).last() == entry@);
            assert(before + own.take(0) =~= before);
        }
        let mut j: usize = 0;
        while j < entry.transactions.len()
            invariant
                0 <= j <= entry.transactions@.len(),
                own == transaction_views(entry.transactions@),
                transaction_views(result@) == before + own.take(j as int),
            decreases entry.transactions@.len() - j,
        {
            let ghost so_far = transaction_views(result@);
            result.push(entry.transactions[j].duplicate());
            assert(transaction_views(result@) =~= so_far.push(own[j as int]));
            assert(transaction_views(result@) =~= before + own.take(j + 1));
            j += 1;
        }
        assert(own.take(entry.transactions@.len() as int) =~= own);
        i += 1;
    }
    assert(views.take(entries@.len() as int) =~= views);
    result
}

impl Blockstore {
    /// The time of a block.
    pub fn get_block_time(&self, slot: Slot) -> (result: Result<Option<UnixTimestamp>>)
        ensures
            result == if cleaned_up(self@, slot) {
                Err::<Option<UnixTimestamp>, BlockstoreError>(BlockstoreError::SlotCleanedUp)
            } else {
                Ok(block_time_of(self@.ledger, slot))
            },
    {
        match self.check_lowest_cleanup_slot(slot) {
            Err(e) => Err(e),
            Ok(_) => Ok(self.read_block_time(slot)),
        }
    }

    fn read_block_time(&self, slot: Slot) -> (result: Option<UnixTimestamp>)
        ensures
            result == block_time_of(self@.ledger, slot),
    {
        match self.ledger.blocktime.get(&slot) {
            Some(time) => Some(*time),
            None => None,
        }
    }

    /// Keeps the time of a block.
    pub fn cache_block_time(&mut self, slot: Slot, timestamp: UnixTimestamp)
        ensures
            final(self)@ == old(self)@.commit_one(WriteOpView::PutBlockTime(slot, timestamp)),
            final(self)@.ledger == old(self)@.ledger.apply(
                WriteOpView::PutBlockTime(slot, timestamp),
            ),
    {
        self.commit_one(WriteOp::PutBlockTime(slot, timestamp));
    }

    /// The height of a block.
    pub fn get_block_height(&self, slot: Slot) -> (result: Result<Option<u64>>)
        ensures
            result == if cleaned_up(self@, slot) {
                Err::<Option<u64>, BlockstoreError>(BlockstoreError::SlotCleanedUp)
            } else {
                Ok(block_height_of(self@.ledger, slot))
            },
    {
        match self.check_lowest_cleanup_slot(slot) {
            Err(e) => Err(e),
            Ok(_) => Ok(self.read_block_height(slot)),
        }
    }

    fn read_block_height(&self, slot: Slot) -> (result: Option<u64>)
        ensures
            result == block_height_of(self@.ledger, slot),
    {
        match self.ledger.block_height.get(&slot) {
            Some(height) => Some(*height),
            None => None,
        }
    }

    /// Keeps the height of a block.
    pub fn cache_block_height(&mut self, slot: Slot, block_height: u64)
        ensures
            final(self)@ == old(self)@.commit_one(WriteOpView::PutBlockHeight(slot, block_height)),
            final(self)@.ledger == old(self)@.ledger.apply(
                WriteOpView::PutBlockHeight(slot, block_height),
            ),
    {
        self.commit_one(WriteOp::PutBlockHeight(slot, block_height));
    }

    /// The rewards of a slot.
    pub fn read_rewards(&self, slot: Slot) -> (result: Option<Vec<Reward>>)
        ensures
            result is Some <==> self@.ledger.rewards.contains_key(slot),
            result is Some ==> result->0@ == self@.ledger.rewards[slot],
    {
        match self.ledger.rewards.get(&slot) {
            Some(rewards) => Some(rewards.duplicate()),
            None => None,
        }
    }

    /// Keeps the rewards of a slot.
    pub fn write_rewards(&mut self, slot: Slot, rewards: Vec<Reward>)
        ensures
            final(self)@ == old(self)@.commit_one(WriteOpView::PutRewards(slot, rewards@)),
            final(self)@.ledger == old(self)@.ledger.apply(
                WriteOpView::PutRewards(slot, rewards@),
            ),
    {
        self.commit_one(WriteOp::PutRewards(slot, rewards));
    }

    /// The block of a rooted slot.
    pub fn get_rooted_block(&self, slot: Slot, require_previous_blockhash: bool) -> (result:
        Result<ConfirmedBlock>)
        requires
            !cleaned_up(self@, slot) && rooted(self@.ledger, slot) ==> block_readable(
                self@,
                slot,
                require_previous_blockhash,
            ),
        ensures
            block_result(result) == rooted_block(self@, slot, require_previous_blockhash),
    {
        match self.check_lowest_cleanup_slot(slot) {
            Err(e) => {
                return Err(e);
            },
            Ok(_) => {},
        }
        if self.is_root(slot) {
            return self.get_complete_block(slot, require_previous_blockhash);
        }
        Err(BlockstoreError::SlotNotRooted)
    }

    /// The block of a full slot.
    pub fn get_complete_block(&self, slot: Slot, require_previous_blockhash: bool) -> (result:
        Result<ConfirmedBlock>)
        requires
            block_readable(self@, slot, require_previous_blockhash),
        ensures
            block_result(result) == complete_block(self@, slot, require_previous_blockhash),
    {
        let slot_meta = match self.ledger.meta.get(&slot) {
            Some(slot_meta) => slot_meta,
            None => {
                return Err(BlockstoreError::SlotUnavailable);
            },
        };
        if slot_meta.is_full() {
            let slot_entries = match self.get_slot_entries(slot, 0) {
                Ok(entries) => entries,
                Err(e) => {
                    return Err(e);
                },
            };
            if slot_entries.len() > 0 {
                let blockhash = match get_last_hash(&slot_entries) {
                    Some(hash) => hash,
                    None => Blockhash { w0: 0, w1: 0 },
                };
                let slot_transactions = collect_transactions(&slot_entries);
                let parent_slot_entries: Vec<Entry> = match slot_meta.parent_slot {
                    None => Vec::new(),
                    Some(parent_slot) => match self.get_slot_entries(parent_slot, 0) {
                        Ok(entries) => entries,
                        Err(_) => Vec::new(),
                    },
                };
                assert(entry_views(parent_slot_entries@) =~= parent_entries(self@, slot_meta@));
                if parent_slot_entries.len() == 0 && require_previous_blockhash {
                    return Err(BlockstoreError::ParentEntriesUnavailable);
                }
                let previous_blockhash = match get_last_hash(&parent_slot_entries) {
                    Some(hash) => hash,
                    None => Blockhash { w0: 0, w1: 0 },
                };
                let rewards: Vec<Reward> = match self.read_rewards(slot) {
                    Some(rewards) => rewards,
                    None => Vec::new(),
                };
                assert(rewards@ =~= rewards_of(self@.ledger, slot));
                let block_time = self.read_block_time(slot);
                let block_height = self.read_block_height(slot);
                let parent_slot: u64 = match slot_meta.parent_slot {
                    Some(parent_slot) => parent_slot,
                    None => {
                        assert(false);
                        0
                    },
                };
                let transactions = match self.map_transactions_to_statuses(
                    slot,
                    slot_transactions,
                ) {
                    Ok(transactions) => transactions,
                    Err(e) => {
                        return Err(e);
                    },
                };
                return Ok(
                    ConfirmedBlock {
                        previous_blockhash,
                        blockhash,
                        parent_slot,
                        transactions,
                        rewards,
                        block_time,
                        block_height,
                    },
                );
            }
        }
        Err(BlockstoreError::SlotUnavailable)
    }

    /// Adds the statuses to the transactions of a slot.
    pub fn map_transactions_to_statuses(
        &self,
        slot: Slot,
        transactions: Vec<VersionedTransaction>,
    ) -> (result: Result<Vec<TransactionWithStatusMeta>>)
        ensures
            (match result {
                Ok(found) => Ok::<Seq<TransactionWithStatusMetaView>, BlockstoreError>(
                    with_status_views(found@),
                ),
                Err(e) => Err(e),
            }) == with_statuses(self@.ledger, slot, transaction_views(transactions@)),
    {
        let ghost views = transaction_views(transactions@);
        let ghost all = Seq::new(
            views.len(),
            |i: int| with_status(self@.ledger, slot, views[i]),
        );
        let mut result: Vec<TransactionWithStatusMeta> = Vec::new();
        let mut i: usize = 0;
        assert(with_status_views(result@) =~= all.take(0));
        while i < transactions.len()
            invariant
                0 <= i <= transactions@.len(),
                views == transaction_views(transactions@),
                all == Seq::new(views.len(), |i: int| with_status(self@.ledger, slot, views[i])),
                with_status_views(result@) == all.take(i as int),
                forall|j: int| 0 <= j < i ==> (#[trigger] views[j]).is_legacy,
            decreases transactions@.len() - i,
        {
            let versioned = transactions[i].duplicate();
            let ghost view = versioned@;
            assert(view == views[i as int]);
            let signature = versioned.signature;
            match versioned.into_legacy_transaction() {
                None => {
                    assert(!views[i as int].is_legacy);
                    return Err(BlockstoreError::UnsupportedTransactionVersion);
                },
                Some(transaction) => {
                    let ghost so_far = with_status_views(result@);
                    let meta = self.read_transaction_status(signature, slot);
                    let found = TransactionWithStatusMeta { transaction, meta };
                    assert(found@ == all[i as int]);
                    result.push(found);
                    assert(with_status_views(result@) =~= so_far.push(found@));
                    assert(with_status_views(result@) =~= all.take(i + 1));
                },
            }
            i += 1;
        }
        assert(all.take(transactions@.len() as int) =~= all);
        Ok(result)
    }

    /// The transaction of a slot that is known by a signature.
    pub fn find_transaction_in_slot(&self, slot: Slot, signature: Signature) -> (result: Result<
        Option<VersionedTransaction>,
    >)
        requires
            slot_readable(self@, slot, 0, false),
        ensures
            (match result {
                Ok(Some(t)) => Ok::<Option<VersionedTransactionView>, BlockstoreError>(Some(t@)),
                Ok(None) => Ok(None),
                Err(e) => Err(e),
            }) == transaction_in_slot(self@, slot, signature),
    {
        let slot_entries = match self.get_slot_entries(slot, 0) {
            Ok(entries) => entries,
            Err(e) => {
                return Err(e);
            },
        };
        let transactions = collect_transactions(&slot_entries);
        let ghost views = transaction_views(transactions@);
        let mut i: usize = 0;
        assert(views.skip(0) =~= views);
        while i < transactions.len()
            invariant
                0 <= i <= transactions@.len(),
                views == transaction_views(transactions@),
                transaction_in_slot(self@, slot, signature) == Ok::<
                    Option<VersionedTransactionView>,
                    BlockstoreError,
                >(transaction_with(views, signature)),
                transaction_with(views, signature) == transaction_with(
                    views.skip(i as int),
                    signature,
                ),
            decreases transactions@.len() - i,
        {
            proof {
                assert(views.skip(i as int)[0] == views[i as int]);
                assert(views.skip(i as int).drop_first() =~= views.skip(i + 1));
            }
            if transactions[i].signature == signature {
                return Ok(Some(transactions[i].duplicate()));
            }
            i += 1;
        }
        Ok(None)
    }

    fn get_transaction_with_status(
        &self,
        signature: Signature,
        confirmed_unrooted_slots: &Vec<Slot>,
    ) -> (result: Result<Option<ConfirmedTransaction>>)
        requires
            transaction_readable(self@, signature, confirmed_unrooted_slots@),
        ensures
            transaction_result(result) == transaction_with_status(
                self@,
                signature,
                confirmed_unrooted_slots@,
            ),
    {
        match self.get_transaction_status(signature, confirmed_unrooted_slots) {
            None => Ok(None),
            Some((slot, status)) => {
                let transaction = match self.find_transaction_in_slot(slot, signature) {
                    Err(e) => {
                        return Err(e);
                    },
                    Ok(None) => {
                        return Err(BlockstoreError::TransactionStatusSlotMismatch);
                    },
                    Ok(Some(transaction)) => transaction,
                };
                let transaction = match transaction.into_legacy_transaction() {
                    None => {
                        return Err(BlockstoreError::UnsupportedTransactionVersion);
                    },
                    Some(transaction) => transaction,
                };
                let block_time = match self.get_block_time(slot) {
                    Err(e) => {
                        return Err(e);
                    },
                    Ok(time) => time,
                };
                Ok(
                    Some(
                        ConfirmedTransaction {
                            slot,
                            transaction: TransactionWithStatusMeta {
                                transaction,
                                meta: Some(status),
                            },
                            block_time,
                        },
                    ),
                )
            },
        }
    }

    /// A transaction that was processed in a root.
    pub fn get_rooted_transaction(&self, signature: Signature) -> (result: Result<
        Option<ConfirmedTransaction>,
    >)
        requires
            transaction_readable(self@, signature, Seq::empty()),
        ensures
            transaction_result(result) == transaction_with_status(self@, signature, Seq::empty()),
    {
        let none: Vec<Slot> = Vec::new();
        assert(none@ =~= Seq::empty());
        self.get_transaction_with_status(signature, &none)
    }

    /// A transaction that was processed in a root, or in a slot above the last root that
    /// `highest_confirmed_slot` builds on.
    pub fn get_complete_transaction(
        &self,
        signature: Signature,
        highest_confirmed_slot: Slot,
    ) -> (result: Result<Option<ConfirmedTransaction>>)
        requires
            self@.ledger.meta.contains_key(highest_confirmed_slot) ==> descends(
                self@.ledger.meta,
                highest_confirmed_slot,
                self@.last_root + 1,
            ),
            transaction_readable(
                self@,
                signature,
                confirmed_unrooted(self@, highest_confirmed_slot),
            ),
        ensures
            transaction_result(result) == transaction_with_status(
                self@,
                signature,
                confirmed_unrooted(self@, highest_confirmed_slot),
            ),
    {
        let confirmed_unrooted_slots = self.get_confirmed_unrooted_slots(highest_confirmed_slot);
        self.get_transaction_with_status(signature, &confirmed_unrooted_slots)
    }
}

} // verus!
