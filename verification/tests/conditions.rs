use blockstore::batch::RecoveredShred;
use blockstore::blockstore::Blockstore;
use blockstore::column::{KeySet, SlotIndex};
use blockstore::fixtures::{
    create_ticks, entries_to_test_shreds, make_many_slot_entries, make_slot_entries,
};
use blockstore::insertion::InsertDataShredError;
use blockstore::ledger::Ledger;
use blockstore::meta::{ErasureConfig, ErasureMeta, ShredIndex, SlotMeta};
use blockstore::metrics::BlockstoreInsertionMetrics;
use blockstore::records::{BlockstoreError, InvalidShredData, TransactionStatusMeta};
use blockstore::shred::Shred;
use blockstore::slot_update::update_completed_data_indexes;
use blockstore::types::{Blockhash, Pubkey, Signature};

const NOW: u64 = 1_000_000;
const NO_RECOVERY: Option<fn(Vec<Vec<Shred>>) -> Vec<RecoveredShred>> = None;

fn open() -> Blockstore {
    Blockstore::open(Ledger::new(), NOW)
}

fn status() -> TransactionStatusMeta {
    TransactionStatusMeta {
        err: None,
        fee: 42,
        pre_balances: vec![],
        post_balances: vec![],
        details: vec![],
    }
}

fn signature(n: u128) -> Signature {
    Signature { w0: n, w1: 0, w2: 0, w3: 0 }
}

fn address(n: u128) -> Pubkey {
    Pubkey { w0: n, w1: 0 }
}

#[test]
fn test_create_new_ledger() {
    let genesis_hash = Blockhash { w0: 7, w1: 9 };
    let ticks = create_ticks(64, genesis_hash);
    let mut blockstore = open();
    let last_hash = blockstore.fill_first_slot(&ticks, 0, NOW);
    assert_eq!(last_hash, Some(ticks.last().unwrap().hash));
    assert!(blockstore.is_full(0));
    assert!(blockstore.is_root(0));
    let entries = blockstore.get_slot_entries(0, 0).unwrap();
    assert_eq!(ticks, entries);

    // The same ledger comes back from the journal.
    let mut ledger = Ledger::new();
    for batch in blockstore.take_journal() {
        ledger.apply_all(&batch);
    }
    let reopened = Blockstore::open(ledger, NOW);
    assert_eq!(ticks, reopened.get_slot_entries(0, 0).unwrap());
    assert!(reopened.is_root(0));
}

#[test]
fn shreds_that_cannot_be_inserted_are_told() {
    let (shreds, _) = make_slot_entries(1, 0, 10).unwrap();
    assert!(shreds[0].is_insertable(false, NOW));
    let mut beyond = shreds[0].clone();
    beyond.data_header.size = beyond.payload.len() as u16 + 1;
    assert!(!beyond.is_insertable(false, NOW));
    let mut last = shreds[0].clone();
    last.set_index(u32::MAX);
    assert!(!last.is_insertable(true, NOW));
    let late = Shred::new_from_data(1, 0, 1, &vec![1], false, false, 32, 0, 0);
    let ms = 32 * 1000 / blockstore::slot_update::DEFAULT_TICKS_PER_SECOND;
    assert!(!late.is_insertable(false, ms - 1));
    assert!(late.is_insertable(false, ms));
}

#[test]
fn erasure_sets_have_bounds() {
    let meta = ErasureMeta {
        set_index: 0,
        first_coding_index: 0xffff_ffff,
        config: ErasureConfig { num_data: 3, num_coding: 1 },
    };
    assert!(meta.is_in_bounds());
    let beyond = ErasureMeta { first_coding_index: 0x1_0000_0000, ..meta };
    assert!(!beyond.is_in_bounds());
}

#[test]
fn soundness_is_told() {
    let mut blockstore = open();
    assert!(blockstore.ledger.is_sound());
    let (shreds, _) = make_many_slot_entries(0, 3, 10).unwrap();
    blockstore.insert_shreds(shreds, NO_RECOVERY, false, false, NOW);
    assert!(blockstore.ledger.is_sound());
    assert!(blockstore.ledger.has_children_above());

    // A child below its parent.
    let mut meta = blockstore.meta(2).unwrap();
    meta.next_slots.push(1);
    let mut other = Blockstore::open(Ledger::new(), NOW);
    other.put_meta(2, meta);
    assert!(!other.ledger.is_sound());
    assert!(!other.ledger.has_children_above());

    // A last shred that is not there.
    let mut meta = SlotMeta::new(5, Some(4));
    meta.last_index = Some(3);
    let mut other = Blockstore::open(Ledger::new(), NOW);
    other.put_meta(5, meta);
    assert!(!other.ledger.is_sound());

    // A coding shred that cannot be read.
    let mut other = Blockstore::open(Ledger::new(), NOW);
    other.ledger.code_shreds.put(SlotIndex { slot: 1, index: 0 }, vec![1, 2, 3]);
    assert!(!other.ledger.is_sound());
}

#[test]
fn readable_slots_are_told() {
    let mut blockstore = open();
    let (shreds, _) = make_many_slot_entries(0, 2, 10).unwrap();
    blockstore.insert_shreds(shreds, NO_RECOVERY, false, false, NOW);
    assert!(blockstore.is_slot_readable(1, 0, false));
    assert!(blockstore.is_slot_readable(1, 1, false));
    assert!(!blockstore.is_slot_readable(1, 2_000, false));
    assert!(blockstore.is_slot_readable(9, 2_000, false));
    assert!(blockstore.is_block_readable(1, false));

    blockstore.ledger.data_shreds.remove(&SlotIndex { slot: 0, index: 0 });
    assert!(!blockstore.is_slot_readable(0, 0, false));
    assert!(!blockstore.is_block_readable(1, false));
    assert!(blockstore.is_slot_readable(1, 0, false));
    blockstore.set_dead_slot(0);
    assert!(blockstore.is_slot_readable(0, 0, false));
    assert!(!blockstore.is_slot_readable(0, 0, true));
    blockstore.remove_dead_slot(0);
    blockstore.set_lowest_cleanup_slot(1);
    assert!(blockstore.is_slot_readable(0, 0, false));
}

#[test]
fn a_full_slot_is_told_past_its_last_run() {
    let mut blockstore = open();
    let (shreds, entries) = make_slot_entries(1, 0, 1).unwrap();
    assert_eq!(shreds.len(), 1);
    blockstore.insert_shreds(shreds, NO_RECOVERY, false, false, NOW);
    assert!(blockstore.is_full(1));
    assert_eq!(
        blockstore.get_slot_entries_with_shred_info(1, 0, false).unwrap(),
        (entries, 1, true)
    );
    assert_eq!(
        blockstore.get_slot_entries_with_shred_info(1, 1, false).unwrap(),
        (vec![], 0, true)
    );
    // Nothing is known of slot 2.
    assert_eq!(
        blockstore.get_slot_entries_with_shred_info(2, 0, false).unwrap(),
        (vec![], 0, false)
    );
}

#[test]
fn a_block_with_a_missing_shred_is_refused() {
    let mut blockstore = open();
    let entries = create_ticks(200, Blockhash::default());
    let shreds = entries_to_test_shreds(&entries, 1, 0, true, 0).unwrap();
    let n = shreds.len() as u32;
    assert!(n > 3);
    blockstore.insert_shreds(shreds, NO_RECOVERY, false, false, NOW);
    assert_eq!(blockstore.get_entries_in_data_block(1, 0, n - 1, None).unwrap(), entries);
    // The second shred is missing, and no run ends with the third.
    blockstore.ledger.data_shreds.remove(&SlotIndex { slot: 1, index: 1 });
    assert!(blockstore.ledger.is_run_readable(1, 0, 2, false));
    assert!(!blockstore.ledger.is_run_readable(1, 0, 2, true));
    for end in [2, n - 1] {
        assert!(matches!(
            blockstore.get_entries_in_data_block(1, 0, end, None),
            Err(BlockstoreError::InvalidShredData(InvalidShredData::Missing))
        ));
    }
    // One that cannot be read
    blockstore.ledger.data_shreds.put(SlotIndex { slot: 1, index: 1 }, vec![1, 2, 3]);
    assert!(blockstore.ledger.is_run_readable(1, 0, 2, true));
    assert!(matches!(
        blockstore.get_entries_in_data_block(1, 0, 2, None),
        Err(BlockstoreError::InvalidShredData(InvalidShredData::Shred))
    ));
}

#[test]
fn batches_that_may_be_handed_in_are_told() {
    let mut blockstore = open();
    let num_batches = blockstore.journal.len();
    let metrics = BlockstoreInsertionMetrics::default();
    let (shreds, _) = make_slot_entries(1, 0, 1).unwrap();
    let mut odd = shreds[0].clone();
    odd.data_header.size = u16::MAX;
    assert!(!odd.is_insertable(false, NOW));
    // It would be inserted, and cannot be stored.
    assert!(!blockstore.is_batch_allowed(&vec![odd.clone()], &vec![false], false, NOW, metrics));
    // After its slot's shred it is refused, unless it is trusted.
    let batch = vec![shreds[0].clone(), odd.clone()];
    assert!(blockstore.is_batch_allowed(&batch, &vec![true, false], false, NOW, metrics));
    assert!(!blockstore.is_batch_allowed(&batch, &vec![true, false], true, NOW, metrics));
    // Nothing was written.
    assert!(blockstore.meta(1).is_none());
    assert_eq!(blockstore.journal.len(), num_batches);
    let outcome = blockstore.insert_shreds(batch, NO_RECOVERY, false, false, NOW);
    assert_eq!(outcome.inserted_indices, vec![0]);
    assert_eq!(outcome.duplicates, vec![odd]);
}

#[test]
fn runs_are_reported_once_in_any_order() {
    // Runs 0..=1 and 2..=4; shred 6 is missing from the third.
    let ends = [1, 4, 7];
    let orders: [[u32; 7]; 3] =
        [[0, 1, 2, 3, 4, 5, 7], [7, 5, 4, 3, 2, 1, 0], [1, 3, 5, 7, 0, 2, 4]];
    for order in orders {
        let mut received = ShredIndex::new();
        let mut completed = KeySet::new();
        let mut reported = vec![];
        for i in order {
            received.set_present(i as u64, true);
            reported.extend(update_completed_data_indexes(
                ends.contains(&i),
                i,
                &received,
                &mut completed,
            ));
        }
        reported.sort_unstable();
        assert_eq!(reported, vec![(0, 1), (2, 4)]);
        assert!(ends.iter().all(|end| completed.contains(end)));
        assert_eq!(completed.len(), 3);
    }
}

#[test]
fn ancestries_that_lead_down_are_told() {
    let mut blockstore = open();
    blockstore.put_meta(4, SlotMeta::new(4, Some(2)));
    blockstore.put_meta(2, SlotMeta::new(2, Some(3)));
    assert!(!blockstore.ledger.is_descending(4, 0));
    assert!(!blockstore.ledger.is_descending(4, 2));
    assert!(blockstore.ledger.is_descending(4, 3));
    blockstore.put_meta(2, SlotMeta::new(2, Some(0)));
    assert!(blockstore.ledger.is_descending(4, 0));
}

#[test]
fn short_data_shreds_are_told() {
    let mut blockstore = open();
    let key = SlotIndex { slot: 3, index: 2 };
    blockstore.ledger.data_shreds.put(key, vec![0; 85]);
    assert!(!blockstore.ledger.has_data_flags(3, 2, 5));
    assert!(!blockstore.ledger.has_data_flags(0, 0, 1));
    assert!(blockstore.ledger.has_data_flags(3, 3, 5));
    blockstore.ledger.data_shreds.put(SlotIndex { slot: 3, index: 1 }, vec![0; 86]);
    assert!(!blockstore.ledger.has_data_flags(3, 0, 2));
    assert!(blockstore.ledger.has_data_flags(3, 0, 1));
    blockstore.ledger.data_shreds.put(key, vec![0; 86]);
    assert!(blockstore.ledger.has_data_flags(0, 0, 1));
    assert!(blockstore.ledger.has_data_flags(3, 0, 5));
}

#[test]
fn writable_statuses_are_told() {
    let mut blockstore = open();
    assert!(blockstore.is_status_writable(5));
    assert!(blockstore.ledger.has_paired_indexes());
    blockstore.ledger.transaction_status_index.remove(&1);
    assert!(!blockstore.ledger.has_paired_indexes());
    blockstore.ledger.transaction_status_index.remove(&0);
    assert!(blockstore.ledger.has_paired_indexes());
    assert!(!blockstore.is_status_writable(5));
}

#[test]
fn transactions_of_missing_shreds_are_told() {
    let mut blockstore = open();
    let (shreds, _) = make_many_slot_entries(0, 2, 10).unwrap();
    blockstore.insert_shreds(shreds, NO_RECOVERY, false, false, NOW);
    blockstore.set_roots(&vec![0, 1]);
    blockstore.write_transaction_status(1, signature(1), &vec![], &vec![], status());
    assert!(blockstore.is_transaction_readable(signature(1), &vec![]));
    blockstore.ledger.data_shreds.remove(&SlotIndex { slot: 1, index: 0 });
    assert!(!blockstore.is_transaction_readable(signature(1), &vec![]));
    assert!(blockstore.is_transaction_readable(signature(2), &vec![]));
}

#[test]
fn address_signatures_come_in_order() {
    let mut blockstore = open();
    blockstore.set_roots(&vec![2, 3]);
    blockstore.set_lowest_cleanup_slot(1);
    let a = address(1);
    for (slot, n) in [(3u64, 1u128), (2, 9), (3, 5), (2, 4), (4, 2), (1, 3)] {
        blockstore.write_transaction_status(slot, signature(n), &vec![a], &vec![], status());
    }
    blockstore.write_transaction_status(2, signature(6), &vec![address(2)], &vec![], status());
    assert_eq!(
        blockstore.find_address_signatures(a, 0, 10),
        vec![(2, signature(4)), (2, signature(9)), (3, signature(1)), (3, signature(5))]
    );
    assert_eq!(
        blockstore.find_address_signatures(a, 3, 10),
        vec![(3, signature(1)), (3, signature(5))]
    );
}

#[test]
fn orphans_are_the_slots_without_a_parent() {
    let mut blockstore = open();
    let (shreds, _) = make_slot_entries(5, 3, 10).unwrap();
    blockstore.insert_shreds(shreds, NO_RECOVERY, false, false, NOW);
    assert_eq!(blockstore.orphans_iterator(0), vec![3]);
    assert_eq!(blockstore.meta(3).unwrap().parent_slot, None);
    assert_eq!(blockstore.meta(5).unwrap().parent_slot, Some(3));
    let (shreds, _) = make_slot_entries(3, 2, 10).unwrap();
    blockstore.insert_shreds(shreds, NO_RECOVERY, false, false, NOW);
    assert_eq!(blockstore.orphans_iterator(0), vec![2]);
    assert_eq!(blockstore.meta(3).unwrap().parent_slot, Some(2));
    assert_eq!(blockstore.meta(2).unwrap().parent_slot, None);
}

#[test]
fn entries_are_read_back_in_any_order_of_arrival() {
    let (shreds, entries) = make_slot_entries(1, 0, 300).unwrap();
    assert!(shreds.len() > 3);
    let mut shuffled = shreds.clone();
    shuffled.reverse();
    shuffled.swap(0, 2);
    let mut blockstore = open();
    blockstore.insert_shreds(shuffled, NO_RECOVERY, false, false, NOW);
    assert_eq!(blockstore.get_slot_entries(1, 0).unwrap(), entries);
    assert!(blockstore.is_full(1));
}

#[test]
fn records_are_kept_until_replaced() {
    let mut blockstore = open();
    blockstore.store_duplicate_if_not_existing(4, vec![1], vec![2]);
    blockstore.store_duplicate_if_not_existing(4, vec![3], vec![4]);
    let kept = blockstore.get_duplicate_slot(4).unwrap();
    assert_eq!((kept.shred1, kept.shred2), (vec![1], vec![2]));
    blockstore.store_duplicate_slot(4, vec![5], vec![6]);
    assert_eq!(blockstore.get_duplicate_slot(4).unwrap().shred1, vec![5]);

    let hash = Blockhash { w0: 1, w1: 2 };
    blockstore.insert_bank_hash(4, hash, true);
    blockstore.insert_bank_hash(4, hash, false);
    assert!(blockstore.is_duplicate_confirmed(4));
    assert_eq!(blockstore.get_bank_hash(4), Some(hash));
    blockstore.insert_bank_hash(4, Blockhash { w0: 3, w1: 4 }, false);
    assert!(!blockstore.is_duplicate_confirmed(4));

    blockstore.set_dead_slot(4);
    assert!(blockstore.is_dead(4) && !blockstore.is_dead(5));
    blockstore.remove_dead_slot(4);
    assert!(!blockstore.is_dead(4));

    blockstore.cache_block_time(4, 77);
    blockstore.cache_block_height(4, 3);
    assert_eq!(blockstore.get_block_time(4).unwrap(), Some(77));
    assert_eq!(blockstore.get_block_height(4).unwrap(), Some(3));
    assert_eq!(blockstore.get_block_time(5).unwrap(), None);

    blockstore.write_transaction_memos(&signature(1), "memo".to_string());
    assert_eq!(blockstore.read_transaction_memos(signature(1)), Some("memo".to_string()));
    assert_eq!(blockstore.read_transaction_memos(signature(2)), None);
}

#[test]
fn errors_are_put_into_words() {
    assert_eq!(InsertDataShredError::Exists.message(), "insert data shred error");
    assert_eq!(InsertDataShredError::InvalidShred.message(), "insert data shred error");
}
