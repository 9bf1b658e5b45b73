//! Entries, transactions and what is recorded of them.

use vstd::prelude::*;
use crate::column::Duplicate;
use crate::types::{Blockhash, Pubkey, Signature, Slot, UnixTimestamp};

verus! {

/// A transaction as it stands in an entry. It is signed at least once.
#[derive(Clone, Debug, PartialEq, Eq)]
pub struct VersionedTransaction {
    /// The first signature, by which the transaction is known.
    pub signature: Signature,
    pub other_signatures: Vec<Signature>,
    /// Whether the message is of the unversioned format.
    pub is_legacy: bool,
    /// The encoded message.
    pub message: Vec<u8>,
}

/// The model of a `VersionedTransaction`.
#[verifier::ext_equal]
pub struct VersionedTransactionView {
    pub signature: Signature,
    pub other_signatures: Seq<Signature>,
    pub is_legacy: bool,
    pub message: Seq<u8>,
}

impl View for VersionedTransaction {
    type V = VersionedTransactionView;

    open spec fn view(&self) -> VersionedTransactionView {
        VersionedTransactionView {
            signature: self.signature,
            other_signatures: self.other_signatures@,
            is_legacy: self.is_legacy,
            message: self.message@,
        }
    }
}

/// A transaction whose message is of the unversioned format.
#[derive(Clone, Debug, PartialEq, Eq)]
pub struct Transaction {
    /// The first signature, by which the transaction is known.
    pub signature: Signature,
    pub other_signatures: Vec<Signature>,
    pub message: Vec<u8>,
}

/// The model of a `Transaction`.
#[verifier::ext_equal]
pub struct TransactionView {
    pub signature: Signature,
    pub other_signatures: Seq<Signature>,
    pub message: Seq<u8>,
}

impl View for Transaction {
    type V = TransactionView;

    open spec fn view(&self) -> TransactionView {
        TransactionView {
            signature: self.signature,
            other_signatures: self.other_signatures@,
            message: self.message@,
        }
    }
}

impl VersionedTransactionView {
    /// The transaction in the unversioned form, if it has one.
    pub open spec fn legacy(self) -> Option<TransactionView> {
        if self.is_legacy {
            Some(
                TransactionView {
                    signature: self.signature,
                    other_signatures: self.other_signatures,
                    message: self.message,
                },
            )
        } else {
            None
        }
    }
}

impl Duplicate for Vec<Signature> {
    fn duplicate(&self) -> (result: Self) {
        let mut result: Vec<Signature> = Vec::with_capacity(self.len());
        let mut i: usize = 0;
        while i < self.len()
            invariant
                0 <= i <= self.len(),
                result@ == self@.take(i as int),
            decreases self.len() - i,
        {
            result.push(self[i]);
            assert(result@ =~= self@.take(i + 1));
            i += 1;
        }
        assert(result@ =~= self@);
        result
    }
}

impl Duplicate for VersionedTransaction {
    fn duplicate(&self) -> (result: Self) {
        VersionedTransaction {
            signature: self.signature,
            other_signatures: self.other_signatures.duplicate(),
            is_legacy: self.is_legacy,
            message: self.message.duplicate(),
        }
    }
}

impl Duplicate for Transaction {
    fn duplicate(&self) -> (result: Self) {
        Transaction {
            signature: self.signature,
            other_signatures: self.other_signatures.duplicate(),
            message: self.message.duplicate(),
        }
    }
}

impl VersionedTransaction {
    /// The transaction in the unversioned form, if it has one.
    pub fn into_legacy_transaction(self) -> (result: Option<Transaction>)
        ensures
            (match result {
                Some(t) => Some(t@),
                None => None,
            }) == self@.legacy(),
    {
        if self.is_legacy {
            Some(
                Transaction {
                    signature: self.signature,
                    other_signatures: self.other_signatures,
                    message: self.message,
                },
            )
        } else {
            None
        }
    }
}

/// An entry: a number of hashes since the previous entry, the hash they end in, and the
/// transactions recorded with it. One without transactions is a tick.
#[derive(Clone, Debug, PartialEq, Eq)]
pub struct Entry {
    pub num_hashes: u64,
    pub hash: Blockhash,
    pub transactions: Vec<VersionedTransaction>,
}

/// The model of an `Entry`.
#[verifier::ext_equal]
pub struct EntryView {
    pub num_hashes: u64,
    pub hash: Blockhash,
    pub transactions: Seq<VersionedTransactionView>,
}

/// The models of the transactions in a vector.
pub open spec fn transaction_views(transactions: Seq<VersionedTransaction>) -> Seq<
    VersionedTransactionView,
> {
    Seq::new(transactions.len(), |i: int| transactions[i]@)
}

/// The models of the entries in a vector.
pub open spec fn entry_views(entries: Seq<Entry>) -> Seq<EntryView> {
    Seq::new(entries.len(), |i: int| entries[i]@)
}

impl View for Entry {
    type V = EntryView;

    open spec fn view(&self) -> EntryView {
        EntryView {
            num_hashes: self.num_hashes,
            hash: self.hash,
            transactions: transaction_views(self.transactions@),
        }
    }
}

impl Duplicate for Entry {
    fn duplicate(&self) -> (result: Self) {
        let mut transactions: Vec<VersionedTransaction> = Vec::with_capacity(
            self.transactions.len(),
        );
        let mut i: usize = 0;
        while i < self.transactions.len()
            invariant
                0 <= i <= self.transactions.len(),
                transaction_views(transactions@) == transaction_views(self.transactions@).take(
                    i as int,
                ),
            decreases self.transactions.len() - i,
        {
            let ghost before = transaction_views(transactions@);
            transactions.push(self.transactions[i].duplicate());
            assert(transaction_views(transactions@) =~= before.push(self.transactions@[i as int]@));
            assert(transaction_views(transactions@) =~= transaction_views(
                self.transactions@,
            ).take(i + 1));
            i += 1;
        }
        assert(transaction_views(transactions@) =~= transaction_views(self.transactions@));
        Entry { num_hashes: self.num_hashes, hash: self.hash, transactions }
    }
}

impl Entry {
    /// Whether the entry holds no transactions.
    pub fn is_tick(&self) -> (result: bool)
        ensures
            result == (self@.transactions.len() == 0),
    {
        self.transactions.len() == 0
    }
}

/// Why a transaction failed.
#[derive(Clone, Copy, PartialEq, Eq, Structural, Debug)]
pub struct TransactionError {
    pub code: u32,
}

/// What came of a transaction.
#[derive(Clone, Debug, PartialEq, Eq)]
pub struct TransactionStatusMeta {
    /// The error, for a transaction that failed.
    pub err: Option<TransactionError>,
    pub fee: u64,
    pub pre_balances: Vec<u64>,
    pub post_balances: Vec<u64>,
    /// The encoded rest: inner instructions, log messages, token balances and rewards.
    pub details: Vec<u8>,
}

/// The model of a `TransactionStatusMeta`.
#[verifier::ext_equal]
pub struct TransactionStatusMetaView {
    pub err: Option<TransactionError>,
    pub fee: u64,
    pub pre_balances: Seq<u64>,
    pub post_balances: Seq<u64>,
    pub details: Seq<u8>,
}

impl View for TransactionStatusMeta {
    type V = TransactionStatusMetaView;

    open spec fn view(&self) -> TransactionStatusMetaView {
        TransactionStatusMetaView {
            err: self.err,
            fee: self.fee,
            pre_balances: self.pre_balances@,
            post_balances: self.post_balances@,
            details: self.details@,
        }
    }
}

impl Duplicate for TransactionStatusMeta {
    fn duplicate(&self) -> (result: Self) {
        TransactionStatusMeta {
            err: self.err,
            fee: self.fee,
            pre_balances: self.pre_balances.duplicate(),
            post_balances: self.post_balances.duplicate(),
            details: self.details.duplicate(),
        }
    }
}

/// A status as it stands in its column. A record that cannot be decoded holds no status.
#[derive(Clone, Debug, PartialEq, Eq)]
pub struct StoredTransactionStatus {
    pub meta: Option<TransactionStatusMeta>,
}

impl View for StoredTransactionStatus {
    type V = Option<TransactionStatusMetaView>;

    open spec fn view(&self) -> Option<TransactionStatusMetaView> {
        match self.meta {
            Some(meta) => Some(meta@),
            None => None,
        }
    }
}

impl StoredTransactionStatus {
    /// The status, where the record can be decoded.
    pub fn decoded(&self) -> (result: Option<TransactionStatusMeta>)
        ensures
            (match result {
                Some(meta) => Some(meta@),
                None => None,
            }) == self@,
    {
        match &self.meta {
            Some(meta) => Some(meta.duplicate()),
            None => None,
        }
    }
}

impl Duplicate for StoredTransactionStatus {
    fn duplicate(&self) -> (result: Self) {
        StoredTransactionStatus { meta: self.decoded() }
    }
}

/// Why an account was rewarded.
#[derive(Clone, Copy, PartialEq, Eq, Structural, Debug)]
pub enum RewardType {
    Fee,
    Rent,
    Staking,
    Voting,
}

/// A reward that was paid in a block.
#[derive(Clone, Copy, PartialEq, Eq, Structural, Debug)]
pub struct Reward {
    pub pubkey: Pubkey,
    pub lamports: i64,
    pub post_balance: u64,
    pub reward_type: Option<RewardType>,
    pub commission: Option<u8>,
}

impl Duplicate for Vec<Reward> {
    fn duplicate(&self) -> (result: Self) {
        let mut result: Vec<Reward> = Vec::with_capacity(self.len());
        let mut i: usize = 0;
        while i < self.len()
            invariant
                0 <= i <= self.len(),
                result@ == self@.take(i as int),
            decreases self.len() - i,
        {
            result.push(self[i]);
            assert(result@ =~= self@.take(i + 1));
            i += 1;
        }
        assert(result@ =~= self@);
        result
    }
}

impl Duplicate for String {
    fn duplicate(&self) -> (result: Self) {
        self.clone()
    }
}

/// A transaction of a block, with its status where that is known.
#[derive(Clone, Debug, PartialEq, Eq)]
pub struct TransactionWithStatusMeta {
    pub transaction: Transaction,
    pub meta: Option<TransactionStatusMeta>,
}

/// The model of a `TransactionWithStatusMeta`.
#[verifier::ext_equal]
pub struct TransactionWithStatusMetaView {
    pub transaction: TransactionView,
    pub meta: Option<TransactionStatusMetaView>,
}

impl View for TransactionWithStatusMeta {
    type V = TransactionWithStatusMetaView;

    open spec fn view(&self) -> TransactionWithStatusMetaView {
        TransactionWithStatusMetaView {
            transaction: self.transaction@,
            meta: match self.meta {
                Some(meta) => Some(meta@),
                None => None,
            },
        }
    }
}

/// The models of the transactions in a vector.
pub open spec fn with_status_views(transactions: Seq<TransactionWithStatusMeta>) -> Seq<
    TransactionWithStatusMetaView,
> {
    Seq::new(transactions.len(), |i: int| transactions[i]@)
}

/// A complete block.
#[derive(Clone, Debug, PartialEq, Eq)]
pub struct ConfirmedBlock {
    pub previous_blockhash: Blockhash,
    pub blockhash: Blockhash,
    pub parent_slot: Slot,
    pub transactions: Vec<TransactionWithStatusMeta>,
    pub rewards: Vec<Reward>,
    pub block_time: Option<UnixTimestamp>,
    pub block_height: Option<u64>,
}

/// The model of a `ConfirmedBlock`.
#[verifier::ext_equal]
pub struct ConfirmedBlockView {
    pub previous_blockhash: Blockhash,
    pub blockhash: Blockhash,
    pub parent_slot: Slot,
    pub transactions: Seq<TransactionWithStatusMetaView>,
    pub rewards: Seq<Reward>,
    pub block_time: Option<UnixTimestamp>,
    pub block_height: Option<u64>,
}

impl View for ConfirmedBlock {
    type V = ConfirmedBlockView;

    open spec fn view(&self) -> ConfirmedBlockView {
        ConfirmedBlockView {
            previous_blockhash: self.previous_blockhash,
            blockhash: self.blockhash,
            parent_slot: self.parent_slot,
            transactions: with_status_views(self.transactions@),
            rewards: self.rewards@,
            block_time: self.block_time,
            block_height: self.block_height,
        }
    }
}

/// A transaction with its place in the ledger.
#[derive(Clone, Debug, PartialEq, Eq)]
pub struct ConfirmedTransaction {
    pub slot: Slot,
    pub transaction: TransactionWithStatusMeta,
    pub block_time: Option<UnixTimestamp>,
}

/// The model of a `ConfirmedTransaction`.
#[verifier::ext_equal]
pub struct ConfirmedTransactionView {
    pub slot: Slot,
    pub transaction: TransactionWithStatusMetaView,
    pub block_time: Option<UnixTimestamp>,
}

impl View for ConfirmedTransaction {
    type V = ConfirmedTransactionView;

    open spec fn view(&self) -> ConfirmedTransactionView {
        ConfirmedTransactionView {
            slot: self.slot,
            transaction: self.transaction@,
            block_time: self.block_time,
        }
    }
}

/// A signature that mentions an address, with what is known of its transaction.
#[derive(Clone, Debug, PartialEq, Eq)]
pub struct ConfirmedTransactionStatusWithSignature {
    pub signature: Signature,
    pub slot: Slot,
    pub err: Option<TransactionError>,
    pub memo: Option<String>,
    pub block_time: Option<UnixTimestamp>,
}

/// The model of a `ConfirmedTransactionStatusWithSignature`.
#[verifier::ext_equal]
pub struct ConfirmedTransactionStatusWithSignatureView {
    pub signature: Signature,
    pub slot: Slot,
    pub err: Option<TransactionError>,
    pub memo: Option<Seq<char>>,
    pub block_time: Option<UnixTimestamp>,
}

impl View for ConfirmedTransactionStatusWithSignature {
    type V = ConfirmedTransactionStatusWithSignatureView;

    open spec fn view(&self) -> ConfirmedTransactionStatusWithSignatureView {
        ConfirmedTransactionStatusWithSignatureView {
            signature: self.signature,
            slot: self.slot,
            err: self.err,
            memo: match self.memo {
                Some(memo) => Some(memo@),
                None => None,
            },
            block_time: self.block_time,
        }
    }
}

/// Why the shreds of a slot cannot be read as entries.
#[derive(Clone, Copy, PartialEq, Eq, Structural, Debug)]
pub enum InvalidShredData {
    /// A shred is missing from the store.
    Missing,
    /// A shred cannot be read.
    Shred,
    /// The shreds do not form a run.
    Run,
    /// The run does not decode to entries.
    Entries,
}

/// Why a request to the store is refused.
#[derive(Debug)]
pub enum BlockstoreError {
    InvalidShredData(InvalidShredData),
    SlotNotRooted,
    DeadSlot,
    Io(Box<BlockstoreError>),
    SlotCleanedUp,
    UnableToSetOpenFileDescriptorLimit,
    TransactionStatusSlotMismatch,
    ParentEntriesUnavailable,
    SlotUnavailable,
    UnsupportedTransactionVersion,
}

/// The result of a request to the store.
pub type Result<T> = std::result::Result<T, BlockstoreError>;

} // verus!
