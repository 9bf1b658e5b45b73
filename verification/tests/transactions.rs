use blockstore::batch::RecoveredShred;
use blockstore::blocks::get_last_hash;
use blockstore::blockstore::Blockstore;
use blockstore::fixtures::{create_ticks, entries_to_test_shreds, make_slot_entries};
use blockstore::ledger::{Ledger, WriteOp};
use blockstore::meta::{PerfSample, SlotMeta, TransactionStatusIndexMeta};
use blockstore::purge::PurgeType;
use blockstore::records::{
    BlockstoreError, ConfirmedBlock, ConfirmedTransaction,
    ConfirmedTransactionStatusWithSignature, Entry, Reward, RewardType, StoredTransactionStatus,
    Transaction, TransactionError, TransactionStatusMeta, TransactionWithStatusMeta,
    VersionedTransaction,
};
use blockstore::shred::Shred;
use blockstore::types::{AddressKey, Blockhash, Pubkey, Signature, Slot, StatusKey};

const NOW: u64 = 1_000_000;
const NO_RECOVERY: Option<fn(Vec<Vec<Shred>>) -> Vec<RecoveredShred>> = None;

fn open() -> Blockstore {
    Blockstore::open(Ledger::new(), NOW)
}

fn word(x: u8) -> u128 {
    u128::from_be_bytes([x; 16])
}

/// The signature of 64 equal bytes.
fn sig(x: u8) -> Signature {
    Signature { w0: word(x), w1: word(x), w2: word(x), w3: word(x) }
}

fn key(x: u8) -> Pubkey {
    Pubkey { w0: word(x), w1: word(x) }
}

/// Scattered numbers, the same in every run.
struct Scatter(u128);

impl Scatter {
    fn next(&mut self) -> u128 {
        self.0 = self.0.wrapping_mul(0x2360ed051fc65da44385df649fccf645).wrapping_add(0x5851f42d4c957f2d14057b7ef767814f);
        self.0 ^ (self.0 >> 64)
    }

    fn signature(&mut self) -> Signature {
        Signature { w0: self.next(), w1: self.next(), w2: self.next(), w3: self.next() }
    }

    fn pubkey(&mut self) -> Pubkey {
        Pubkey { w0: self.next(), w1: self.next() }
    }
}

fn default_status() -> TransactionStatusMeta {
    TransactionStatusMeta {
        err: None,
        fee: 0,
        pre_balances: vec![],
        post_balances: vec![],
        details: vec![],
    }
}

fn some_status() -> TransactionStatusMeta {
    TransactionStatusMeta {
        err: None,
        fee: 42,
        pre_balances: vec![1, 2, 3],
        post_balances: vec![3, 2, 1],
        details: vec![],
    }
}

fn put_status(
    blockstore: &mut Blockstore,
    primary_index: u64,
    signature: Signature,
    slot: Slot,
    status: TransactionStatusMeta,
) {
    blockstore.commit_one(WriteOp::PutTransactionStatus(
        StatusKey { primary_index, signature, slot },
        StoredTransactionStatus { meta: Some(status) },
    ));
}

fn transaction(scatter: &mut Scatter) -> VersionedTransaction {
    VersionedTransaction {
        signature: scatter.signature(),
        other_signatures: vec![],
        is_legacy: true,
        message: vec![1, 2, 3],
    }
}

/// Entries with one transaction each, and a tick after each.
fn entries_with_transactions(scatter: &mut Scatter, num_entries: u64) -> Vec<Entry> {
    let mut entries = vec![];
    for x in 0..num_entries {
        entries.push(Entry {
            num_hashes: 1,
            hash: Blockhash { w0: 9, w1: 9 },
            transactions: vec![transaction(scatter)],
        });
        entries.append(&mut create_ticks(1, Blockhash { w0: x as u128 + 1, w1: 77 }));
    }
    entries
}

fn insert_entries(
    blockstore: &mut Blockstore,
    entries: &[Entry],
    slot: Slot,
    parent: Slot,
) {
    let shreds = entries_to_test_shreds(&entries.to_vec(), slot, parent, true, 0).unwrap();
    blockstore.insert_shreds(shreds, NO_RECOVERY, false, false, NOW);
}

fn legacy(transaction: VersionedTransaction) -> Transaction {
    transaction.into_legacy_transaction().unwrap()
}

#[test]
fn test_get_rooted_block() {
    let slot = 10;
    let mut scatter = Scatter(1);
    let entries = entries_with_transactions(&mut scatter, 100);
    let blockhash = get_last_hash(&entries).unwrap();
    let mut blockstore = open();
    insert_entries(&mut blockstore, &entries, slot, slot - 1);
    insert_entries(&mut blockstore, &entries, slot + 1, slot);
    insert_entries(&mut blockstore, &entries, slot + 2, slot + 1);
    blockstore.set_roots(&vec![slot - 1, slot, slot + 1]);
    let mut parent_meta = SlotMeta::new(0, None);
    parent_meta.is_connected = false;
    blockstore.put_meta(slot - 1, parent_meta);

    let mut expected_transactions = vec![];
    for transaction in entries.iter().cloned().flat_map(|entry| entry.transactions).map(legacy) {
        let status = TransactionStatusMeta {
            err: None,
            fee: 42,
            pre_balances: vec![0, 10, 20],
            post_balances: vec![0, 11, 22],
            details: vec![],
        };
        for s in [slot, slot + 1, slot + 2] {
            put_status(&mut blockstore, 0, transaction.signature, s, status.clone());
        }
        expected_transactions
            .push(TransactionWithStatusMeta { transaction, meta: Some(status) });
    }

    // Even if marked as root, a slot without entries is an error.
    assert!(matches!(
        blockstore.get_rooted_block(slot - 1, true),
        Err(BlockstoreError::SlotUnavailable)
    ));
    // So is one whose parent has none, where the previous blockhash is required.
    assert!(matches!(
        blockstore.get_rooted_block(slot, true),
        Err(BlockstoreError::ParentEntriesUnavailable)
    ));
    let confirmed_block = blockstore.get_rooted_block(slot, false).unwrap();
    assert_eq!(confirmed_block.transactions.len(), 100);
    let expected_block = ConfirmedBlock {
        transactions: expected_transactions.clone(),
        parent_slot: slot - 1,
        blockhash,
        previous_blockhash: Blockhash::default(),
        rewards: vec![],
        block_time: None,
        block_height: None,
    };
    assert_eq!(confirmed_block, expected_block);

    let confirmed_block = blockstore.get_rooted_block(slot + 1, true).unwrap();
    assert_eq!(confirmed_block.transactions.len(), 100);
    let mut expected_block = ConfirmedBlock {
        transactions: expected_transactions.clone(),
        parent_slot: slot,
        blockhash,
        previous_blockhash: blockhash,
        rewards: vec![],
        block_time: None,
        block_height: None,
    };
    assert_eq!(confirmed_block, expected_block);
    assert!(matches!(
        blockstore.get_rooted_block(slot + 2, true),
        Err(BlockstoreError::SlotNotRooted)
    ));

    let complete_block = blockstore.get_complete_block(slot + 2, true).unwrap();
    assert_eq!(complete_block.transactions.len(), 100);
    let mut expected_complete_block = ConfirmedBlock {
        transactions: expected_transactions,
        parent_slot: slot + 1,
        blockhash,
        previous_blockhash: blockhash,
        rewards: vec![],
        block_time: None,
        block_height: None,
    };
    assert_eq!(complete_block, expected_complete_block);

    // Time, height and rewards, where they are known.
    let timestamp = 1_576_183_541;
    blockstore.cache_block_time(slot + 1, timestamp);
    expected_block.block_time = Some(timestamp);
    let block_height = slot - 2;
    blockstore.cache_block_height(slot + 1, block_height);
    expected_block.block_height = Some(block_height);
    assert_eq!(blockstore.get_rooted_block(slot + 1, true).unwrap(), expected_block);
    assert_eq!(blockstore.get_block_time(slot + 1).unwrap(), Some(timestamp));
    assert_eq!(blockstore.get_block_height(slot + 1).unwrap(), Some(block_height));

    let timestamp = 1_576_183_542;
    blockstore.cache_block_time(slot + 2, timestamp);
    expected_complete_block.block_time = Some(timestamp);
    let block_height = slot - 1;
    blockstore.cache_block_height(slot + 2, block_height);
    expected_complete_block.block_height = Some(block_height);
    assert_eq!(
        blockstore.get_complete_block(slot + 2, true).unwrap(),
        expected_complete_block
    );

    let reward = Reward {
        pubkey: key(3),
        lamports: 123,
        post_balance: 456,
        reward_type: Some(RewardType::Rent),
        commission: None,
    };
    blockstore.write_rewards(slot + 2, vec![reward]);
    expected_complete_block.rewards = vec![reward];
    assert_eq!(blockstore.read_rewards(slot + 2), Some(vec![reward]));
    assert_eq!(
        blockstore.get_complete_block(slot + 2, true).unwrap(),
        expected_complete_block
    );

    blockstore.set_lowest_cleanup_slot(slot);
    assert!(matches!(
        blockstore.get_rooted_block(slot, true),
        Err(BlockstoreError::SlotCleanedUp)
    ));
    assert!(matches!(blockstore.get_block_time(slot), Err(BlockstoreError::SlotCleanedUp)));
    assert!(matches!(blockstore.get_block_height(slot), Err(BlockstoreError::SlotCleanedUp)));
}

#[test]
fn test_persist_transaction_status() {
    let mut blockstore = open();
    let status = TransactionStatusMeta {
        err: Some(TransactionError { code: 2 }),
        fee: 5,
        pre_balances: vec![1, 2, 3],
        post_balances: vec![3, 2, 1],
        details: vec![8, 9],
    };
    assert_eq!(blockstore.read_transaction_status(Signature::default(), 0), None);
    put_status(&mut blockstore, 0, Signature::default(), 0, status.clone());
    assert_eq!(
        blockstore.read_transaction_status(Signature::default(), 0),
        Some(status.clone())
    );
    // Under the other index too, but only where the first has nothing.
    let mut other = status.clone();
    other.fee = 9;
    put_status(&mut blockstore, 1, sig(2), 9, other.clone());
    assert_eq!(blockstore.read_transaction_status(sig(2), 9), Some(other));
    put_status(&mut blockstore, 0, sig(2), 9, status.clone());
    assert_eq!(blockstore.read_transaction_status(sig(2), 9), Some(status));
    // A record that cannot be decoded hides the other index.
    blockstore.commit_one(WriteOp::PutTransactionStatus(
        StatusKey { primary_index: 0, signature: sig(2), slot: 9 },
        StoredTransactionStatus { meta: None },
    ));
    assert_eq!(blockstore.read_transaction_status(sig(2), 9), None);
}

fn index_meta(blockstore: &Blockstore, i: u64) -> TransactionStatusIndexMeta {
    *blockstore.ledger.transaction_status_index.get(&i).unwrap()
}

fn first_status(blockstore: &Blockstore, i: u64) -> StatusKey {
    let start = StatusKey { primary_index: i, signature: Signature::default(), slot: 0 };
    let column = &blockstore.ledger.transaction_status;
    column.key_at(column.lower_bound(&start))
}

fn first_address(blockstore: &Blockstore, i: u64) -> AddressKey {
    let start = AddressKey {
        primary_index: i,
        address: Pubkey::default(),
        slot: 0,
        signature: Signature::default(),
    };
    let column = &blockstore.ledger.address_signatures;
    column.key_at(column.lower_bound(&start))
}

#[test]
fn test_transaction_status_index() {
    let mut blockstore = open();
    let mut scatter = Scatter(7);
    let slot0 = 10;
    let fresh = TransactionStatusIndexMeta { max_slot: 0, frozen: false };
    assert_eq!(index_meta(&blockstore, 0), fresh);
    assert_eq!(index_meta(&blockstore, 1), fresh);
    for _ in 0..5 {
        let (a, b) = (scatter.pubkey(), scatter.pubkey());
        blockstore.write_transaction_status(
            slot0,
            scatter.signature(),
            &vec![a],
            &vec![b],
            default_status(),
        );
    }
    // New statuses raise the highest slot of index 0.
    assert_eq!(
        index_meta(&blockstore, 0),
        TransactionStatusIndexMeta { max_slot: slot0, frozen: false }
    );
    assert_eq!(index_meta(&blockstore, 1), fresh);
    assert_eq!(first_status(&blockstore, 0).primary_index, 0);
    assert_eq!(first_status(&blockstore, 0).slot, slot0);
    assert_eq!(first_address(&blockstore, 0).primary_index, 0);
    assert_eq!(first_address(&blockstore, 0).slot, slot0);

    // The first purge freezes index 0.
    blockstore.run_purge(0, 8, PurgeType::PrimaryIndex);
    assert_eq!(
        index_meta(&blockstore, 0),
        TransactionStatusIndexMeta { max_slot: slot0, frozen: true }
    );
    assert_eq!(index_meta(&blockstore, 1), fresh);

    let slot1 = 20;
    for _ in 0..5 {
        let (a, b) = (scatter.pubkey(), scatter.pubkey());
        blockstore.write_transaction_status(
            slot1,
            scatter.signature(),
            &vec![a],
            &vec![b],
            default_status(),
        );
    }
    assert_eq!(
        index_meta(&blockstore, 0),
        TransactionStatusIndexMeta { max_slot: slot0, frozen: true }
    );
    // New statuses go to index 1.
    assert_eq!(
        index_meta(&blockstore, 1),
        TransactionStatusIndexMeta { max_slot: slot1, frozen: false }
    );
    assert_eq!(first_status(&blockstore, 0).primary_index, 0);
    assert_eq!(first_status(&blockstore, 0).slot, 10);
    assert_eq!(first_address(&blockstore, 0).primary_index, 0);
    assert_eq!(first_address(&blockstore, 0).slot, slot0);
    assert_eq!(first_status(&blockstore, 1).primary_index, 1);
    assert_eq!(first_status(&blockstore, 1).slot, slot1);
    assert_eq!(first_address(&blockstore, 1).primary_index, 1);
    assert_eq!(first_address(&blockstore, 1).slot, slot1);

    // A purge beyond index 0 makes the two change places.
    blockstore.run_purge(0, 18, PurgeType::PrimaryIndex);
    assert_eq!(
        index_meta(&blockstore, 0),
        TransactionStatusIndexMeta { max_slot: 0, frozen: false }
    );
    assert_eq!(
        index_meta(&blockstore, 1),
        TransactionStatusIndexMeta { max_slot: slot1, frozen: true }
    );
    assert_eq!(first_status(&blockstore, 0).primary_index, 1);
    assert_eq!(first_status(&blockstore, 0).slot, slot1);
    assert_eq!(first_address(&blockstore, 0).primary_index, 1);
    assert_eq!(first_address(&blockstore, 0).slot, slot1);
}

#[test]
fn test_get_transaction_status() {
    let mut blockstore = open();
    // Slot 0 is a root; 1 and 2 build on it; 2 is a root; 3 builds on 2.
    for (slot, parent) in [(0, 0), (1, 0), (2, 0), (3, 2)] {
        blockstore.put_meta(slot, SlotMeta::new(slot, Some(parent)));
    }
    blockstore.set_roots(&vec![0, 2]);
    for (index, x, slot) in [
        (0, 2, 1),
        (0, 2, 2),
        (0, 4, 1),
        (0, 5, 1),
        (0, 5, 3),
        (0, 6, 1),
        (1, 4, 2),
        (1, 5, 4),
        (1, 5, 5),
        (1, 6, 3),
    ] {
        put_status(&mut blockstore, index, sig(x), slot, some_status());
    }
    let look = |x: u8, unrooted: Vec<Slot>| {
        let (status, counter) = blockstore.get_transaction_status_with_counter(sig(x), &unrooted);
        (status.map(|(slot, _)| slot), counter)
    };
    // A root under index 0
    assert_eq!(look(2, vec![]), (Some(2), 2));
    assert_eq!(look(2, vec![3]), (Some(2), 2));
    // A root under index 1
    assert_eq!(look(4, vec![]), (Some(2), 3));
    assert_eq!(look(4, vec![3]), (Some(2), 3));
    // No root
    assert_eq!(look(5, vec![]), (None, 6));
    assert_eq!(look(5, vec![3]), (Some(3), 2));
    // Below, between and above the signatures that exist
    for x in [1, 3, 7] {
        assert_eq!(look(x, vec![]), (None, 2));
        assert_eq!(look(x, vec![3]), (None, 2));
    }
    assert_eq!(
        blockstore.get_rooted_transaction_status(sig(2)),
        Some((2, some_status()))
    );
    assert_eq!(blockstore.get_transaction_status(sig(6), &vec![3]), Some((3, some_status())));
}

fn cleanup_slot_and_special_columns(simulate_ledger_cleanup_service: bool) {
    let mut blockstore = open();
    for (slot, parent) in [(0, 0), (1, 0), (2, 1), (3, 2)] {
        blockstore.put_meta(slot, SlotMeta::new(slot, Some(parent)));
    }
    blockstore.set_roots(&vec![0, 1, 2, 3]);
    let lowest_cleanup_slot = 1;
    let lowest_available_slot = lowest_cleanup_slot + 1;
    let (signature1, signature2) = (sig(2), sig(3));
    put_status(&mut blockstore, 0, signature1, lowest_cleanup_slot, some_status());
    put_status(&mut blockstore, 0, signature2, lowest_available_slot, some_status());
    let (address0, address1) = (key(100), key(101));
    blockstore.write_transaction_status(
        lowest_cleanup_slot,
        signature1,
        &vec![address0],
        &vec![],
        default_status(),
    );
    blockstore.write_transaction_status(
        lowest_available_slot,
        signature2,
        &vec![address1],
        &vec![],
        default_status(),
    );
    let missing = |store: &Blockstore, signature, address, slot| {
        (
            store.get_transaction_status_with_counter(signature, &vec![]).0.is_none(),
            store.find_address_signatures_for_slot(address, slot).is_empty(),
            store.find_address_signatures(address, slot, slot).is_empty(),
        )
    };
    assert_eq!(
        missing(&blockstore, signature1, address0, lowest_cleanup_slot),
        (false, false, false)
    );
    assert_eq!(
        missing(&blockstore, signature2, address1, lowest_available_slot),
        (false, false, false)
    );
    if simulate_ledger_cleanup_service {
        blockstore.set_lowest_cleanup_slot(lowest_cleanup_slot);
    }
    let gone = simulate_ledger_cleanup_service;
    assert_eq!(
        missing(&blockstore, signature1, address0, lowest_cleanup_slot),
        (gone, gone, gone)
    );
    assert_eq!(
        missing(&blockstore, signature2, address1, lowest_available_slot),
        (false, false, false)
    );
}

#[test]
fn test_lowest_cleanup_slot_and_special_cfs_without_compact_with_ledger_cleanup_service_simulation()
{
    cleanup_slot_and_special_columns(true);
}

#[test]
fn test_lowest_cleanup_slot_and_special_cfs_without_compact_without_ledger_cleanup_service_simulation(
) {
    cleanup_slot_and_special_columns(false);
}

/// Puts entries with transactions into slot 2, and gives their transactions with statuses.
fn slot_with_statuses(blockstore: &mut Blockstore, slot: Slot) -> Vec<TransactionWithStatusMeta> {
    let mut scatter = Scatter(11);
    let entries = entries_with_transactions(&mut scatter, 5);
    insert_entries(blockstore, &entries, slot, slot - 1);
    let mut expected = vec![];
    for transaction in entries.into_iter().flat_map(|entry| entry.transactions).map(legacy) {
        let status = TransactionStatusMeta {
            err: None,
            fee: 42,
            pre_balances: vec![0, 10],
            post_balances: vec![0, 11],
            details: vec![4, 5, 6],
        };
        put_status(blockstore, 0, transaction.signature, slot, status.clone());
        expected.push(TransactionWithStatusMeta { transaction, meta: Some(status) });
    }
    expected
}

#[test]
fn test_get_rooted_transaction() {
    let slot = 2;
    let mut blockstore = open();
    let expected_transactions = slot_with_statuses(&mut blockstore, slot);
    blockstore.set_roots(&vec![slot - 1, slot]);
    for transaction in expected_transactions.clone() {
        let signature = transaction.transaction.signature;
        let expected = Some(ConfirmedTransaction { slot, transaction, block_time: None });
        assert_eq!(blockstore.get_rooted_transaction(signature).unwrap(), expected);
        assert_eq!(
            blockstore.get_complete_transaction(signature, slot + 1).unwrap(),
            expected
        );
    }
    blockstore.run_purge(0, 2, PurgeType::PrimaryIndex);
    blockstore.set_lowest_cleanup_slot(slot);
    for TransactionWithStatusMeta { transaction, .. } in expected_transactions {
        let signature = transaction.signature;
        assert_eq!(blockstore.get_rooted_transaction(signature).unwrap(), None);
        assert_eq!(blockstore.get_complete_transaction(signature, slot + 1).unwrap(), None);
    }
}

#[test]
fn test_get_complete_transaction() {
    let slot = 2;
    let mut blockstore = open();
    let expected_transactions = slot_with_statuses(&mut blockstore, slot);
    for transaction in expected_transactions.clone() {
        let signature = transaction.transaction.signature;
        assert_eq!(
            blockstore.get_complete_transaction(signature, slot).unwrap(),
            Some(ConfirmedTransaction { slot, transaction, block_time: None })
        );
        assert_eq!(blockstore.get_rooted_transaction(signature).unwrap(), None);
    }
    blockstore.run_purge(0, 2, PurgeType::PrimaryIndex);
    blockstore.set_lowest_cleanup_slot(slot);
    for TransactionWithStatusMeta { transaction, .. } in expected_transactions {
        let signature = transaction.signature;
        assert_eq!(blockstore.get_complete_transaction(signature, slot).unwrap(), None);
        assert_eq!(blockstore.get_rooted_transaction(signature).unwrap(), None);
    }
}

#[test]
fn transactions_that_cannot_be_given_out() {
    let slot = 2;
    let mut blockstore = open();
    let mut versioned = transaction(&mut Scatter(5));
    versioned.is_legacy = false;
    let signature = versioned.signature;
    let entry = Entry { num_hashes: 1, hash: Blockhash::default(), transactions: vec![versioned] };
    insert_entries(&mut blockstore, &[entry], slot, slot - 1);
    blockstore.set_roots(&vec![slot]);
    put_status(&mut blockstore, 0, signature, slot, some_status());
    assert!(matches!(
        blockstore.get_rooted_transaction(signature),
        Err(BlockstoreError::UnsupportedTransactionVersion)
    ));
    assert!(matches!(
        blockstore.get_rooted_block(slot, false),
        Err(BlockstoreError::UnsupportedTransactionVersion)
    ));
    // A status of a transaction that is not in the slot
    put_status(&mut blockstore, 0, sig(9), slot, some_status());
    assert!(matches!(
        blockstore.get_rooted_transaction(sig(9)),
        Err(BlockstoreError::TransactionStatusSlotMismatch)
    ));
    blockstore.set_dead_slot(slot);
    assert!(blockstore.is_dead(slot));
    assert!(matches!(
        blockstore.get_rooted_transaction(signature),
        Err(BlockstoreError::DeadSlot)
    ));
    assert!(blockstore.get_slot_entries_with_shred_info(slot, 0, true).is_ok());
    blockstore.remove_dead_slot(slot);
    assert!(!blockstore.is_dead(slot));
}

#[test]
fn test_empty_transaction_status() {
    let mut blockstore = open();
    blockstore.set_roots(&vec![0]);
    assert_eq!(blockstore.get_rooted_transaction(Signature::default()).unwrap(), None);
}

fn write_default(blockstore: &mut Blockstore, slot: Slot, x: u8, a: Pubkey, b: Pubkey) {
    blockstore.write_transaction_status(slot, sig(x), &vec![a], &vec![b], default_status());
}

#[test]
fn test_get_confirmed_signatures_for_address() {
    let mut blockstore = open();
    let (address0, address1) = (key(200), key(201));
    let slot0 = 10;
    for x in 1..5 {
        write_default(&mut blockstore, slot0, x, address0, address1);
    }
    // Freezes index 0
    blockstore.run_purge(0, 1, PurgeType::PrimaryIndex);
    let slot1 = 20;
    for x in 5..9 {
        write_default(&mut blockstore, slot1, x, address0, address1);
    }
    blockstore.set_roots(&vec![slot0, slot1]);

    let all = |store: &Blockstore, address, start, end| {
        store.get_confirmed_signatures_for_address(address, start, end)
    };
    let all0 = all(&blockstore, address0, 0, 50);
    assert_eq!(all0.len(), 8);
    for x in 1..9 {
        assert_eq!(all0[x as usize - 1], sig(x));
    }
    assert_eq!(all(&blockstore, address0, 20, 50).len(), 4);
    assert_eq!(all(&blockstore, address0, 0, 10).len(), 4);
    assert!(all(&blockstore, address0, 1, 5).is_empty());
    assert_eq!(all(&blockstore, address0, 1, 15).len(), 4);
    let all1 = all(&blockstore, address1, 0, 50);
    assert_eq!(all1.len(), 8);
    for x in 1..9 {
        assert_eq!(all1[x as usize - 1], sig(x));
    }

    // Purges index 0
    blockstore.run_purge(0, 10, PurgeType::PrimaryIndex);
    assert_eq!(all(&blockstore, address0, 0, 50).len(), 4);
    assert_eq!(all(&blockstore, address0, 20, 50).len(), 4);
    assert!(all(&blockstore, address0, 0, 10).is_empty());
    assert!(all(&blockstore, address0, 1, 5).is_empty());
    assert_eq!(all(&blockstore, address0, 1, 25).len(), 4);

    // Sorted, whatever the order of writing and the signatures
    let mut scatter = Scatter(21);
    for slot in (21..25).rev() {
        blockstore.write_transaction_status(
            slot,
            scatter.signature(),
            &vec![address0],
            &vec![address1],
            default_status(),
        );
    }
    blockstore.set_roots(&vec![21, 22, 23, 24]);
    let mut past_slot = 0;
    for (slot, _) in blockstore.find_address_signatures(address0, 1, 25) {
        assert!(slot >= past_slot);
        past_slot = slot;
    }
}

#[test]
fn test_find_address_signatures_for_slot() {
    let mut blockstore = open();
    let (address0, address1) = (key(200), key(201));
    let slot1 = 1;
    for x in 1..5 {
        write_default(&mut blockstore, slot1, x, address0, address1);
    }
    let slot2 = 2;
    for x in 5..7 {
        write_default(&mut blockstore, slot2, x, address0, address1);
    }
    // Freezes index 0
    blockstore.run_purge(0, 1, PurgeType::PrimaryIndex);
    for x in 7..9 {
        write_default(&mut blockstore, slot2, x, address0, address1);
    }
    let slot3 = 3;
    for x in 9..13 {
        write_default(&mut blockstore, slot3, x, address0, address1);
    }
    blockstore.set_roots(&vec![slot1]);
    for (slot, first, count) in [(slot1, 1, 4), (slot2, 5, 4), (slot3, 9, 4)] {
        let signatures = blockstore.find_address_signatures_for_slot(address0, slot);
        assert_eq!(signatures.len(), count);
        for (i, (found_slot, signature)) in signatures.iter().enumerate() {
            assert_eq!(*found_slot, slot);
            assert_eq!(*signature, sig(i as u8 + first));
        }
    }
}

/// Entries with one transaction for each address, and the addresses with the signatures.
fn entries_for(scatter: &mut Scatter, addresses: &[Pubkey]) -> (Vec<Entry>, Vec<(Pubkey, Signature)>) {
    let mut entries = vec![];
    let mut named = vec![];
    for address in addresses {
        let transaction = transaction(scatter);
        named.push((*address, transaction.signature));
        entries.push(Entry {
            num_hashes: 1,
            hash: Blockhash { w0: 9, w1: 9 },
            transactions: vec![transaction],
        });
        entries.append(&mut create_ticks(1, Blockhash { w0: address.w0, w1: 3 }));
    }
    (entries, named)
}

fn listing(
    blockstore: &Blockstore,
    address: Pubkey,
    highest: Slot,
    before: Option<Signature>,
    until: Option<Signature>,
    limit: usize,
) -> Vec<ConfirmedTransactionStatusWithSignature> {
    blockstore
        .get_confirmed_signatures_for_address2(address, highest, before, until, limit)
        .unwrap()
}

fn not_less(a: Signature, b: Signature) -> bool {
    (a.w0, a.w1, a.w2, a.w3) >= (b.w0, b.w1, b.w2, b.w3)
}

fn check_listings(
    blockstore: &Blockstore,
    address0: Pubkey,
    address1: Pubkey,
    highest: Slot,
    expected: usize,
) {
    let all0 = listing(blockstore, address0, highest, None, None, usize::MAX);
    assert_eq!(all0.len(), expected);
    let all1 = listing(blockstore, address1, highest, None, None, usize::MAX);
    assert_eq!(all1.len(), expected);
    let before0 = |i: usize| if i == 0 { None } else { Some(all0[i - 1].signature) };
    let before1 = |i: usize| if i == 0 { None } else { Some(all1[i - 1].signature) };

    // One by one
    for i in 0..all0.len() {
        let results = listing(blockstore, address0, highest, before0(i), None, 1);
        assert_eq!(results.len(), 1);
        assert_eq!(results[0], all0[i]);
    }
    // One by one with `until`
    for i in 0..all0.len() {
        let until = if i == all0.len() - 1 { None } else { Some(all0[i + 1].signature) };
        let results = listing(blockstore, address0, highest, before0(i), until, 10);
        assert_eq!(results.len(), 1);
        assert_eq!(results[0], all0[i]);
    }
    let last = all0[all0.len() - 1].signature;
    assert!(listing(blockstore, address0, highest, Some(last), None, 1).is_empty());
    let first = all0[0].signature;
    assert!(listing(blockstore, address0, highest, None, Some(first), 2).is_empty());

    // Three at a time
    for i in (0..all0.len()).step_by(3) {
        let results = listing(blockstore, address0, highest, before0(i), None, 3);
        if i < 12 {
            assert_eq!(results.len(), 3);
            assert_eq!(results[2], all0[i + 2]);
        } else {
            assert_eq!(results.len(), 2);
        }
        assert_eq!(results[0], all0[i]);
        assert_eq!(results[1], all0[i + 1]);
    }
    // Within a slot, in decreasing order of the signatures
    for i in (0..all1.len()).step_by(2) {
        let results = listing(blockstore, address1, highest, before1(i), None, 2);
        assert_eq!(results.len(), 2);
        assert_eq!(results[0].slot, results[1].slot);
        assert!(not_less(results[0].signature, results[1].signature));
        assert_eq!(results[0], all1[i]);
        assert_eq!(results[1], all1[i + 1]);
    }
    // `before` and `until` of another address
    let results =
        listing(blockstore, address0, highest, Some(all1[0].signature), None, usize::MAX);
    assert!(!results.is_empty());
    let results2 = listing(
        blockstore,
        address0,
        highest,
        Some(all1[0].signature),
        Some(all1[4].signature),
        usize::MAX,
    );
    assert!(results2.len() < results.len());
}

#[test]
fn test_get_confirmed_signatures_for_address2() {
    let mut blockstore = open();
    let mut scatter = Scatter(33);
    let (address0, address1) = (scatter.pubkey(), scatter.pubkey());
    for slot in 2..=8 {
        let (entries, named) =
            entries_for(&mut scatter, &[address0, address1, address0, address1]);
        insert_entries(&mut blockstore, &entries, slot, slot - 1);
        for (i, (address, signature)) in named.into_iter().enumerate() {
            if slot == 4 && i == 1 {
                // Freezes index 0 in the middle of a slot
                blockstore.run_purge(0, 1, PurgeType::PrimaryIndex);
            }
            blockstore.write_transaction_status(
                slot,
                signature,
                &vec![address],
                &vec![],
                default_status(),
            );
        }
    }
    // Two slots that build on slot 8
    for slot in 9..=10 {
        let (entries, named) =
            entries_for(&mut scatter, &[address0, address1, address0, address1]);
        insert_entries(&mut blockstore, &entries, slot, 8);
        for (address, signature) in named {
            blockstore.write_transaction_status(
                slot,
                signature,
                &vec![address],
                &vec![],
                default_status(),
            );
        }
    }
    // Slot 3 stays without root.
    blockstore.set_roots(&vec![1, 2, 4, 5, 6, 7, 8]);
    check_listings(&blockstore, address0, address1, 8, 12);
    check_listings(&blockstore, address0, address1, 10, 14);

    // What is known of a listed signature
    let newest = listing(&blockstore, address0, 8, None, None, 1)[0].signature;
    blockstore.write_transaction_memos(&newest, "hello".to_string());
    blockstore.cache_block_time(8, 17);
    let mut failed = default_status();
    failed.err = Some(TransactionError { code: 4 });
    blockstore.write_transaction_status(8, newest, &vec![], &vec![], failed);
    assert_eq!(
        listing(&blockstore, address0, 8, None, None, 1),
        vec![ConfirmedTransactionStatusWithSignature {
            signature: newest,
            slot: 8,
            err: Some(TransactionError { code: 4 }),
            memo: Some("hello".to_string()),
            block_time: Some(17),
        }]
    );
    assert_eq!(blockstore.read_transaction_memos(newest), Some("hello".to_string()));
    // A signature that is not known ends the listing at once, one of an empty block refuses it.
    assert!(listing(&blockstore, address0, 8, Some(sig(1)), None, 9).is_empty());
    put_status(&mut blockstore, 1, sig(1), 1, default_status());
    match blockstore.get_confirmed_signatures_for_address2(address0, 8, Some(sig(1)), None, 9) {
        Err(BlockstoreError::Io(reason)) => {
            assert!(matches!(*reason, BlockstoreError::SlotUnavailable))
        }
        _ => panic!("a block that cannot be had"),
    }
}

#[test]
fn purged_slots_are_left_out_of_a_listing() {
    let mut blockstore = open();
    let mut scatter = Scatter(35);
    let address = scatter.pubkey();
    let mut stored = vec![];
    for slot in 2..=6 {
        let (entries, named) = entries_for(&mut scatter, &[address, address]);
        insert_entries(&mut blockstore, &entries, slot, slot - 1);
        for (address, signature) in named {
            stored.push(AddressKey { primary_index: 0, address, slot, signature });
            blockstore.write_transaction_status(
                slot,
                signature,
                &vec![address],
                &vec![],
                default_status(),
            );
        }
    }
    blockstore.set_roots(&vec![1, 2, 3, 4, 5, 6]);
    assert_eq!(listing(&blockstore, address, 6, None, None, usize::MAX).len(), 10);

    // Slots go, and what names the address in them stays.
    blockstore.run_purge(0, 3, PurgeType::PrimaryIndex);
    blockstore.set_lowest_cleanup_slot(3);
    assert_eq!(blockstore.get_first_available_block(), 4);
    assert!(stored.iter().all(|key| blockstore.ledger.address_signatures.contains(key)));
    let all = listing(&blockstore, address, 6, None, None, usize::MAX);
    assert_eq!(all.iter().map(|found| found.slot).collect::<Vec<_>>(), vec![6, 6, 5, 5, 4, 4]);
    for i in 0..all.len() {
        let before = if i == 0 { None } else { Some(all[i - 1].signature) };
        assert_eq!(listing(&blockstore, address, 6, before, None, 1), all[i..i + 1]);
        assert_eq!(listing(&blockstore, address, 6, before, None, 10), all[i..]);
    }
    let last = all[all.len() - 1].signature;
    assert!(listing(&blockstore, address, 6, Some(last), None, 10).is_empty());

    // The block of slot 4 goes too, though the slot is not marked as purged.
    blockstore.run_purge(4, 4, PurgeType::PrimaryIndex);
    assert_eq!(blockstore.get_first_available_block(), 5);
    let left = listing(&blockstore, address, 6, None, None, usize::MAX);
    assert_eq!(left, all[..4]);
}

#[test]
fn test_get_last_hash() {
    let mut entries: Vec<Entry> = vec![];
    assert!(get_last_hash(&entries).is_none());
    for i in 0..10 {
        entries.append(&mut create_ticks(1, Blockhash { w0: i, w1: 42 }));
    }
    assert_eq!(get_last_hash(&entries).unwrap(), entries[9].hash);
}

#[test]
fn test_map_transactions_to_statuses() {
    let mut blockstore = open();
    let mut scatter = Scatter(3);
    let slot = 0;
    let mut transactions = vec![];
    for x in 0..4 {
        let transaction = transaction(&mut scatter);
        let status = TransactionStatusMeta {
            err: Some(TransactionError { code: 2 }),
            fee: x,
            pre_balances: vec![],
            post_balances: vec![],
            details: vec![],
        };
        put_status(&mut blockstore, 0, transaction.signature, slot, status);
        transactions.push(transaction);
    }
    // One without a status
    transactions.push(transaction(&mut scatter));
    let map = blockstore.map_transactions_to_statuses(slot, transactions).unwrap();
    assert_eq!(map.len(), 5);
    for (x, m) in map.iter().take(4).enumerate() {
        assert_eq!(m.meta.as_ref().unwrap().fee, x as u64);
    }
    assert_eq!(map[4].meta, None);
}

#[test]
fn test_write_get_perf_samples() {
    let mut blockstore = open();
    let num_entries: usize = 10;
    let mut perf_samples: Vec<(Slot, PerfSample)> = vec![];
    for x in 1..num_entries + 1 {
        perf_samples.push((
            x as u64 * 50,
            PerfSample {
                num_transactions: 1000 + x as u64,
                num_slots: 50,
                sample_period_secs: 20,
            },
        ));
    }
    for (slot, sample) in perf_samples.iter() {
        blockstore.write_perf_sample(*slot, sample);
    }
    for x in 0..num_entries {
        let mut expected_samples = perf_samples[num_entries - 1 - x..].to_vec();
        expected_samples.sort_by(|a, b| b.0.cmp(&a.0));
        assert_eq!(blockstore.get_recent_perf_samples(x + 1), expected_samples);
    }
}

#[test]
fn test_lowest_slot() {
    let mut blockstore = open();
    for slot in 0..10 {
        let (shreds, _) = make_slot_entries(slot, 0, 1).unwrap();
        blockstore.insert_shreds(shreds, NO_RECOVERY, false, false, NOW);
    }
    assert_eq!(blockstore.lowest_slot(), 1);
    blockstore.run_purge(0, 5, PurgeType::PrimaryIndex);
    assert_eq!(blockstore.lowest_slot(), 6);
}
