use blockstore::batch::RecoveredShred;
use blockstore::blockstore::Blockstore;
use blockstore::entries::{decode_entries, encode_entries};
use blockstore::fixtures::{
    create_ticks, entries_to_test_shreds, make_chaining_slot_entries, make_slot_entries,
    max_ticks_per_n_shreds,
};
use blockstore::ledger::{Ledger, WriteOp};
use blockstore::meta::{FrozenHashStatus, Index, SlotMeta};
use blockstore::metrics::BlockstoreInsertionMetrics;
use blockstore::opening::{
    adjust_ulimit_nofile, send_signals, NofileEvent, NofileStep, DESIRED_NOFILE,
};
use blockstore::purge::PurgeType;
use blockstore::records::{BlockstoreError, Entry, InvalidShredData, VersionedTransaction};
use blockstore::shred::{deshred, Shred, ShredType};
use blockstore::shredder::Shredder;
use blockstore::types::{Blockhash, Pubkey, Signature, Slot};

const NOW: u64 = 1_000_000;
const NO_RECOVERY: Option<fn(Vec<Vec<Shred>>) -> Vec<RecoveredShred>> = None;

fn open() -> Blockstore {
    Blockstore::open(Ledger::new(), NOW)
}

fn slot_shreds(slot: Slot, parent: Slot, num_entries: u64) -> (Vec<Shred>, Vec<Entry>) {
    make_slot_entries(slot, parent, num_entries).unwrap()
}

fn same_index(a: &Index, b: &Index) -> bool {
    a.slot == b.slot && a.data.index.same(&b.data.index) && a.coding.index.same(&b.coding.index)
}

#[test]
fn test_set_roots() {
    let mut blockstore = open();
    let chained_slots = vec![0, 2, 4, 7, 12, 15];
    assert_eq!(blockstore.last_root(), 0);
    blockstore.set_roots(&chained_slots);
    assert_eq!(blockstore.last_root(), 15);
    for i in &chained_slots {
        assert!(blockstore.is_root(*i));
    }
    assert_eq!(blockstore.max_root(), 15);
    assert_eq!(blockstore.rooted_slot_iterator(3), vec![4, 7, 12, 15]);
    // The last root does not go back.
    blockstore.set_roots(&vec![3]);
    assert_eq!(blockstore.last_root(), 15);
    assert!(blockstore.is_root(3));
}

#[test]
fn test_is_skipped() {
    let mut blockstore = open();
    let roots = vec![2, 4, 7, 12, 15];
    blockstore.set_roots(&roots);
    for i in 0..20 {
        if i < 2 || roots.contains(&i) || i > 15 {
            assert!(!blockstore.is_skipped(i));
        } else {
            assert!(blockstore.is_skipped(i));
        }
    }
}

#[test]
fn test_iter_bounds() {
    let blockstore = open();
    assert!(blockstore.slot_meta_iterator(5).is_empty());
}

#[test]
fn test_duplicate_slot() {
    let slot = 0;
    let (shreds, _) = slot_shreds(slot, 0, 2);
    let (duplicate_shreds, _) = slot_shreds(slot, 0, 3);
    let shred = shreds[0].clone();
    let duplicate_shred = duplicate_shreds[0].clone();
    let mut blockstore = open();
    blockstore.insert_shreds(vec![shred.clone()], NO_RECOVERY, false, false, NOW);
    assert!(!blockstore.has_duplicate_shreds_in_slot(slot));

    let is_duplicate = |store: &Blockstore, shred: &Shred| {
        store.is_shred_duplicate(slot, 0, ShredType::Data, shred.payload.clone())
    };
    assert_eq!(is_duplicate(&blockstore, &duplicate_shred), Some(shred.payload.clone()));
    assert!(is_duplicate(&blockstore, &shred).is_none());
    assert!(blockstore
        .is_shred_duplicate(slot, 1, ShredType::Data, shred.payload.clone())
        .is_none());

    blockstore.store_duplicate_slot(slot, shred.payload.clone(), duplicate_shred.payload.clone());
    assert!(blockstore.has_duplicate_shreds_in_slot(slot));
    let found = blockstore.get_duplicate_slot(slot).unwrap();
    assert_eq!(found.shred1, shred.payload);
    assert_eq!(found.shred2, duplicate_shred.payload);
    // The first proof stays.
    blockstore.store_duplicate_if_not_existing(slot, vec![1], vec![2]);
    assert_eq!(blockstore.get_duplicate_slot(slot).unwrap(), found);
    assert_eq!(blockstore.duplicate_slots_iterator(0), vec![slot]);
}

#[test]
fn test_clear_unconfirmed_slot() {
    let mut blockstore = open();
    let unconfirmed_slot = 9;
    let unconfirmed_child_slot = 10;
    let slots = vec![2, unconfirmed_slot, unconfirmed_child_slot];
    let shreds: Vec<_> = make_chaining_slot_entries(&slots, 1)
        .unwrap()
        .into_iter()
        .flat_map(|x| x.0)
        .collect();
    blockstore.insert_shreds(shreds, NO_RECOVERY, false, false, NOW);
    // Slot 9 has one shred.
    assert!(blockstore.get_data_shred(unconfirmed_slot, 0).is_some());
    assert!(blockstore.get_data_shred(unconfirmed_slot, 1).is_none());
    blockstore.set_dead_slot(unconfirmed_slot);
    assert_eq!(blockstore.dead_slots_iterator(0), vec![unconfirmed_slot]);

    blockstore.clear_unconfirmed_slot(unconfirmed_slot);
    assert!(!blockstore.is_dead(unconfirmed_slot));
    assert_eq!(
        blockstore.meta(unconfirmed_slot).unwrap().next_slots,
        vec![unconfirmed_child_slot]
    );
    assert!(blockstore.get_data_shred(unconfirmed_slot, 0).is_none());
    // Other slots stay as they are.
    assert!(blockstore.get_data_shred(unconfirmed_child_slot, 0).is_some());
    assert!(blockstore.get_data_shred(2, 0).is_some());
}

#[test]
fn test_remove_shred_data_complete_flag() {
    let mut blockstore = open();
    let (mut shreds, entries) = slot_shreds(0, 0, 1);
    shreds[0].unset_data_complete();
    blockstore.insert_shreds(shreds, NO_RECOVERY, false, false, NOW);
    let stored_shred = &blockstore.get_data_shreds_for_slot(0, 0).unwrap()[0];
    assert!(!stored_shred.data_complete());
    assert!(stored_shred.last_in_slot());
    assert_eq!(entries, blockstore.get_any_valid_slot_entries(0, 0));
}

#[test]
fn test_insert_data_shreds_same_slot_last_index() {
    let mut blockstore = open();
    let num_unique_entries = max_ticks_per_n_shreds(1) + 1;
    let (mut original_shreds, original_entries) = slot_shreds(0, 0, num_unique_entries);
    // Without the first shred the slot is not full.
    assert!(original_shreds.len() > 1);
    let last_index = original_shreds.last().unwrap().index() as u64;
    original_shreds.remove(0);
    for _ in 0..10 {
        blockstore.insert_shreds(original_shreds.clone(), NO_RECOVERY, false, false, NOW);
        let meta = blockstore.meta(0).unwrap();
        assert!(!blockstore.is_dead(0));
        assert_eq!(blockstore.get_slot_entries(0, 0).unwrap(), vec![]);
        assert_eq!(meta.consumed, 0);
        assert_eq!(meta.received, last_index + 1);
        assert_eq!(meta.parent_slot, Some(0));
        assert_eq!(meta.last_index, Some(last_index));
        assert!(!blockstore.is_full(0));
    }
    let duplicate_shreds = entries_to_test_shreds(&original_entries, 0, 0, true, 0).unwrap();
    let num_shreds = duplicate_shreds.len() as u64;
    blockstore.insert_shreds(duplicate_shreds, NO_RECOVERY, false, false, NOW);
    assert_eq!(blockstore.get_slot_entries(0, 0).unwrap(), original_entries);
    let meta = blockstore.meta(0).unwrap();
    assert_eq!(meta.consumed, num_shreds);
    assert_eq!(meta.received, num_shreds);
    assert_eq!(meta.parent_slot, Some(0));
    assert_eq!(meta.last_index, Some(num_shreds - 1));
    assert!(blockstore.is_full(0));
    assert!(!blockstore.is_dead(0));
}

#[test]
fn test_duplicate_last_index() {
    let num_shreds = 2;
    let num_entries = max_ticks_per_n_shreds(num_shreds);
    let slot = 1;
    let (mut shreds, _) = slot_shreds(slot, 0, num_entries);
    shreds[0].set_last_in_slot();
    shreds[1].set_last_in_slot();
    let mut blockstore = open();
    blockstore.insert_shreds(shreds.clone(), NO_RECOVERY, false, false, NOW);
    let found = blockstore.get_duplicate_slot(slot).unwrap();
    assert_eq!(found.shred1, shreds[0].payload);
    assert_eq!(found.shred2, shreds[1].payload);
}

#[test]
fn test_duplicate_last_index_mark_dead() {
    let num_shreds = 10u64;
    let smaller_last_shred_index = 5usize;
    let larger_last_shred_index = 8usize;
    let setup_test_shreds = |slot: Slot| -> Vec<Shred> {
        let num_entries = max_ticks_per_n_shreds(num_shreds);
        let (mut shreds, _) = slot_shreds(slot, 0, num_entries);
        shreds[smaller_last_shred_index].set_last_in_slot();
        shreds[larger_last_shred_index].set_last_in_slot();
        shreds
    };
    let mut blockstore = open();
    let mut slot = 0;
    let shreds = setup_test_shreds(slot);

    // What the slot looks like with the shreds up to the smaller last index
    let (expected_slot_meta, expected_index) = {
        let some = shreds[..=smaller_last_shred_index].to_vec();
        blockstore.insert_shreds(some.clone(), NO_RECOVERY, false, false, NOW);
        let meta = blockstore.meta(slot).unwrap();
        assert_eq!(meta.consumed, some.len() as u64);
        let shreds_index = blockstore.get_index(slot).unwrap();
        for i in 0..some.len() as u64 {
            assert!(shreds_index.data.is_present(i));
        }
        blockstore.run_purge(slot, slot, PurgeType::PrimaryIndex);
        assert!(blockstore.meta(slot).is_none());
        (meta, shreds_index)
    };
    let check_slot = |store: &Blockstore| {
        for i in 0..num_shreds {
            if i <= smaller_last_shred_index as u64 {
                assert_eq!(
                    store.get_data_shred(slot, i).unwrap(),
                    shreds[i as usize].payload
                );
            } else {
                assert!(store.get_data_shred(slot, i).is_none());
            }
        }
        let mut meta = store.meta(slot).unwrap();
        meta.first_shred_timestamp = expected_slot_meta.first_shred_timestamp;
        assert!(meta.same(&expected_slot_meta));
        assert!(same_index(&store.get_index(slot).unwrap(), &expected_index));
    };

    // Case 1: in one batch, in order: nothing above the smaller last index is inserted, and the
    // slot is not dead.
    blockstore.insert_shreds(shreds.clone(), NO_RECOVERY, false, false, NOW);
    assert!(blockstore.get_duplicate_slot(slot).is_some());
    assert!(!blockstore.is_dead(slot));
    check_slot(&blockstore);

    // Case 2: a duplicate with an even smaller last index does not make a full slot dead.
    let mut smaller = shreds[smaller_last_shred_index - 1].clone();
    smaller.set_last_in_slot();
    smaller.payload[0] = u8::MAX - smaller.payload[0];
    assert!(blockstore
        .is_shred_duplicate(slot, smaller.index(), ShredType::Data, smaller.payload.clone())
        .is_some());
    blockstore.insert_shreds(vec![smaller], NO_RECOVERY, false, false, NOW);
    assert!(!blockstore.is_dead(slot));
    check_slot(&blockstore);

    // Case 3: in reverse the slot is dead, and has all shreds but the two last ones.
    slot += 1;
    let mut shreds = setup_test_shreds(slot);
    shreds.reverse();
    blockstore.insert_shreds(shreds.clone(), NO_RECOVERY, false, false, NOW);
    assert!(blockstore.is_dead(slot));
    let check_dead = |store: &Blockstore, shreds: &[Shred], slot: Slot| {
        for shred in shreds {
            let index = shred.index() as u64;
            if index != smaller_last_shred_index as u64 && index != larger_last_shred_index as u64
            {
                assert_eq!(store.get_data_shred(slot, index).unwrap(), shred.payload);
            } else {
                assert!(store.get_data_shred(slot, index).is_none());
            }
        }
    };
    check_dead(&blockstore, &shreds, slot);

    // Case 4: the same, one shred at a time.
    slot += 1;
    let mut shreds = setup_test_shreds(slot);
    shreds.reverse();
    for shred in shreds.clone() {
        blockstore.insert_shreds(vec![shred], NO_RECOVERY, false, false, NOW);
    }
    assert!(blockstore.is_dead(slot));
    check_dead(&blockstore, &shreds, slot);
    assert!(matches!(blockstore.get_slot_entries(slot, 0), Err(BlockstoreError::DeadSlot)));
}

fn costs(n: u64) -> Vec<(Pubkey, u64)> {
    (1..n + 1).map(|x| (Pubkey { w0: 1000 - x as u128, w1: x as u128 }, x + 100)).collect()
}

#[test]
fn test_read_write_cost_table() {
    let mut blockstore = open();
    let mut cost_table = costs(10);
    for (key, cost) in cost_table.iter() {
        blockstore.write_program_cost(key, cost);
    }
    let read_back = blockstore.read_program_costs();
    assert_eq!(read_back.len(), cost_table.len());
    for entry in &read_back {
        assert!(cost_table.contains(entry));
    }
    for entry in cost_table.iter_mut() {
        entry.1 += 100;
    }
    for (key, cost) in cost_table.iter() {
        blockstore.write_program_cost(key, cost);
    }
    let new_program_key = Pubkey { w0: 5, w1: 5 };
    let new_program_cost = 999;
    blockstore.write_program_cost(&new_program_key, &new_program_cost);
    let read_back = blockstore.read_program_costs();
    assert_eq!(read_back.len(), cost_table.len() + 1);
    for (key, cost) in cost_table.iter() {
        assert_eq!(*cost, read_back.iter().find(|(k, _)| k == key).unwrap().1);
    }
    assert_eq!(
        new_program_cost,
        read_back.iter().find(|(k, _)| *k == new_program_key).unwrap().1
    );
    blockstore.delete_program_cost(&new_program_key);
    let read_back = blockstore.read_program_costs();
    assert_eq!(read_back.len(), cost_table.len());
    for entry in &read_back {
        assert!(cost_table.contains(entry));
    }
    // In decreasing order of the addresses
    assert!(read_back.windows(2).all(|pair| pair[0].0.w0 > pair[1].0.w0));
}

#[test]
fn test_delete_old_records_from_cost_table() {
    let mut blockstore = open();
    let mut cost_table = costs(10);
    for (key, cost) in cost_table.iter() {
        blockstore.write_program_cost(key, cost);
    }
    let removed_key = cost_table.iter().find(|(_, cost)| *cost == 101).unwrap().0;
    cost_table.retain(|(key, _)| *key != removed_key);
    for (pubkey, _) in blockstore.read_program_costs() {
        if !cost_table.iter().any(|(key, _)| *key == pubkey) {
            assert_eq!(pubkey, removed_key);
            blockstore.delete_program_cost(&pubkey);
        }
    }
    let read_back = blockstore.read_program_costs();
    assert_eq!(read_back.len(), cost_table.len());
    for entry in &read_back {
        assert!(cost_table.contains(entry));
    }
}

#[test]
fn bank_hashes_stay_confirmed() {
    let mut blockstore = open();
    let (a, b) = (Blockhash { w0: 1, w1: 2 }, Blockhash { w0: 3, w1: 4 });
    assert_eq!(blockstore.get_bank_hash(5), None);
    assert!(!blockstore.is_duplicate_confirmed(5));
    blockstore.insert_bank_hash(5, a, true);
    blockstore.insert_bank_hash(5, a, false);
    assert_eq!(blockstore.get_bank_hash(5), Some(a));
    assert!(blockstore.is_duplicate_confirmed(5));
    // Another hash replaces it.
    blockstore.insert_bank_hash(5, b, false);
    assert_eq!(
        blockstore.ledger.bank_hash.get(&5),
        Some(&FrozenHashStatus { frozen_hash: b, is_duplicate_confirmed: false })
    );
    blockstore.set_duplicate_confirmed_slots_and_hashes(&vec![(5, a), (6, b)]);
    assert_eq!(blockstore.get_bank_hash(5), Some(a));
    assert!(blockstore.is_duplicate_confirmed(5));
    assert!(blockstore.is_duplicate_confirmed(6));
}

#[test]
fn missing_roots_are_fixed() {
    let mut blockstore = open();
    for slot in 0..300u64 {
        blockstore.put_meta(slot, SlotMeta::new(slot, Some(slot.saturating_sub(1))));
    }
    blockstore.set_roots(&vec![10, 299]);
    assert_eq!(blockstore.find_missing_roots(&|| false).unwrap().len(), 298);
    // Stopped in the search
    assert!(blockstore.find_missing_roots(&|| true).is_none());
    let asked = std::cell::Cell::new(0);
    blockstore.scan_and_fix_roots(|| {
        asked.set(asked.get() + 1);
        asked.get() > 298
    });
    assert_eq!(asked.get(), 299);
    assert!(!blockstore.is_root(298));
    // Stopped after the first run of 100
    let asked = std::cell::Cell::new(0);
    blockstore.scan_and_fix_roots(|| {
        asked.set(asked.get() + 1);
        asked.get() > 299
    });
    assert!(blockstore.is_root(199));
    assert!(!blockstore.is_root(198));
    blockstore.set_lowest_cleanup_slot(50);
    blockstore.scan_and_fix_roots(|| false);
    assert!(blockstore.is_root(50));
    assert!(!blockstore.is_root(49));
    assert_eq!(blockstore.last_root(), 299);
    assert_eq!(blockstore.get_confirmed_unrooted_slots(299), vec![]);
}

#[test]
fn ancestors_above_the_last_root_are_confirmed() {
    let mut blockstore = open();
    for (slot, parent) in [(1, 0), (2, 1), (4, 2), (5, 1), (7, 4)] {
        blockstore.put_meta(slot, SlotMeta::new(slot, Some(parent)));
    }
    blockstore.set_roots(&vec![1]);
    assert_eq!(blockstore.get_confirmed_unrooted_slots(7), vec![7, 4, 2]);
    assert_eq!(blockstore.get_confirmed_unrooted_slots(5), vec![5]);
    assert_eq!(blockstore.get_confirmed_unrooted_slots(6), vec![]);
}

#[test]
fn stores_open_where_they_were_left() {
    let mut blockstore = open();
    assert_eq!(blockstore.take_journal().len(), 1);
    let (shreds, entries) = slot_shreds(1, 0, 30);
    blockstore.insert_shreds(shreds, NO_RECOVERY, false, false, NOW);
    blockstore.set_roots(&vec![1]);
    blockstore.run_purge(90, 91, PurgeType::PrimaryIndex);
    // Replaying the journal on the ledger of a new store gives the same ledger.
    let mut ledger = Ledger::new();
    let mut fresh = open();
    for batch in fresh.take_journal().iter().chain(blockstore.take_journal().iter()) {
        ledger.apply_all(batch);
    }
    assert_eq!(blockstore.take_journal().len(), 0);
    let mut again = Blockstore::open(ledger, NOW);
    assert_eq!(again.last_root(), 1);
    // Index 0 is frozen.
    assert_eq!(again.active_transaction_status_index, 1);
    assert_eq!(again.take_journal().len(), 0);
    assert_eq!(again.get_slot_entries(1, 0).unwrap(), entries);
    assert!(again.meta(1).unwrap().same(&blockstore.meta(1).unwrap()));
}

#[test]
fn entries_survive_shredding() {
    let transaction = VersionedTransaction {
        signature: Signature { w0: 1, w1: 2, w2: 3, w3: 4 },
        other_signatures: vec![Signature { w0: 5, w1: 6, w2: 7, w3: 8 }],
        is_legacy: false,
        message: (0..200).collect(),
    };
    let entries: Vec<Entry> = (0..20)
        .map(|i| Entry {
            num_hashes: i,
            hash: Blockhash { w0: i as u128, w1: 1 },
            transactions: vec![transaction.clone(); i as usize % 3],
        })
        .collect();
    let bytes = encode_entries(&entries).unwrap();
    assert_ne!(bytes.len(), 0);
    assert_eq!(decode_entries(&bytes), Some(entries.clone()));
    assert_eq!(decode_entries(&bytes[..bytes.len() - 1].to_vec()), None);

    let shredder = Shredder::new(9, 4, 0, 7).unwrap();
    assert!(Shredder::new(9, 10, 0, 7).is_none());
    assert!(Shredder::new(70_000, 1, 0, 7).is_none());
    let shreds = shredder.entries_to_data_shreds(&entries, true, 40).unwrap();
    assert_eq!(shreds.len(), (bytes.len() + 1050) / 1051);
    assert!(shreds.last().unwrap().last_in_slot());
    assert_eq!(shreds[0].index(), 40);
    assert_eq!(shreds[0].parent(), Some(4));
    assert_eq!(deshred(&shreds), Some(bytes));
    assert_eq!(deshred(&shreds[1..].to_vec()).is_some(), shreds.len() > 1);
    assert_eq!(deshred(&shreds[..shreds.len() - 1].to_vec()), None);
    assert_eq!(deshred(&vec![]), None);
}

#[test]
fn shreds_are_read_from_their_bytes() {
    let shred = Shred::new_from_data(5, 3, 2, &vec![1, 2, 3], true, false, 9, 77, 3);
    assert_eq!(Shred::new_from_serialized_shred(&shred.payload), Some(shred.clone()));
    let stored = shred.stored();
    assert_eq!(stored.len(), 91);
    assert_eq!(Shred::new_from_serialized_shred(&stored), Some(shred.clone()));
    assert!(shred.sanitize());
    assert_eq!(shred.reference_tick(), 9);
    // Cut within the common header, of another kind, or with a parent below slot 0
    assert_eq!(Shred::new_from_serialized_shred(&stored[..82].to_vec()), None);
    let mut other = stored.clone();
    other[64] = 0;
    assert_eq!(Shred::new_from_serialized_shred(&other), None);
    let far = Shred::new_from_data(5, 3, 6, &vec![], true, false, 9, 77, 3);
    assert_eq!(Shred::new_from_serialized_shred(&far.payload), None);
    assert_eq!(far.parent(), None);
    // A slot other than 0 is not its own parent.
    let own = Shred::new_from_data(5, 3, 0, &vec![], true, false, 9, 77, 3);
    assert_eq!(own.parent(), None);
}

#[test]
fn shreds_without_their_neighbours_are_not_entries() {
    let mut blockstore = open();
    let (shreds, entries) = slot_shreds(1, 0, 30);
    assert_eq!(shreds.len(), 2);
    blockstore.insert_shreds(shreds, NO_RECOVERY, false, false, NOW);
    assert_eq!(blockstore.get_entries_in_data_block(1, 0, 1, None).unwrap(), entries);
    assert!(matches!(
        blockstore.get_entries_in_data_block(1, 0, 2, None),
        Err(BlockstoreError::InvalidShredData(InvalidShredData::Missing))
    ));
    // A stored shred that cannot be read
    let key = blockstore::column::SlotIndex { slot: 1, index: 0 };
    blockstore.commit_one(WriteOp::PutDataShred(key, vec![0; 90]));
    assert!(matches!(
        blockstore.get_slot_entries(1, 0),
        Err(BlockstoreError::InvalidShredData(InvalidShredData::Shred))
    ));
    // A shred of another index in its place
    let moved = Shred::new_from_data(1, 7, 1, &vec![], false, false, 0, 0, 7);
    blockstore.commit_one(WriteOp::PutDataShred(key, moved.stored()));
    assert!(matches!(
        blockstore.get_slot_entries(1, 0),
        Err(BlockstoreError::InvalidShredData(InvalidShredData::Run))
    ));
    blockstore.set_lowest_cleanup_slot(1);
    assert!(matches!(blockstore.get_slot_entries(1, 0), Err(BlockstoreError::SlotCleanedUp)));
    assert!(blockstore.get_any_valid_slot_entries(1, 0).is_empty());
}

#[test]
fn the_limit_of_open_files_is_raised() {
    let current = |limit| adjust_ulimit_nofile(true, NofileEvent::Current(limit));
    assert_eq!(current(1024), NofileStep::Raise(500000));
    assert_eq!(current(DESIRED_NOFILE), NofileStep::Done);
    assert_eq!(adjust_ulimit_nofile(true, NofileEvent::Raised(true)), NofileStep::Done);
    assert_eq!(adjust_ulimit_nofile(false, NofileEvent::Raised(false)), NofileStep::Done);
    assert_eq!(adjust_ulimit_nofile(true, NofileEvent::Raised(false)), NofileStep::Refuse);
}

#[test]
fn signals_go_to_every_receiver() {
    let plan = send_signals(2, 3, true, &vec![4, 5]);
    assert_eq!(plan.new_shreds, 2);
    assert_eq!(plan.completed_slots, vec![vec![4, 5]; 3]);
    let plan = send_signals(2, 3, false, &vec![]);
    assert_eq!(plan.new_shreds, 0);
    assert!(plan.completed_slots.is_empty());
}

#[test]
fn metrics_are_reported_by_name() {
    let mut blockstore = open();
    let (shreds, _) = slot_shreds(1, 0, 30);
    let outcome = blockstore.insert_shreds(shreds, NO_RECOVERY, false, false, NOW);
    assert_eq!(outcome.inserted_indices, vec![0, 1]);
    let point = outcome.metrics.report_metrics("blockstore-insert-shreds");
    assert_eq!(point.name, "blockstore-insert-shreds");
    assert_eq!(point.fields.len(), 23);
    let value = |name: &str| point.fields.iter().find(|field| field.name == name).unwrap().value;
    assert_eq!(value("num_shreds"), 2);
    assert_eq!(value("num_inserted"), 2);
    assert_eq!(value("num_coding_shreds_inserted"), 0);
    let mut metrics = BlockstoreInsertionMetrics::default();
    metrics.total_elapsed = u64::MAX;
    assert_eq!(metrics.report_metrics("m").fields[1].value, -1);
}

#[test]
fn ticks_are_without_transactions() {
    let ticks = create_ticks(3, Blockhash { w0: 1, w1: 1 });
    assert!(ticks.iter().all(|tick| tick.is_tick() && tick.num_hashes == 0));
    assert_eq!(ticks.len(), 3);
}
