use blockstore::batch::{InsertionOutcome, RecoveredShred};
use blockstore::blockstore::Blockstore;
use blockstore::fixtures::{
    create_ticks, entries_to_test_shreds, make_slot_entries, max_ticks_per_n_shreds,
};
use blockstore::insertion::CompletedDataSetInfo;
use blockstore::ledger::Ledger;
use blockstore::meta::{ErasureConfig, ErasureMeta, ErasureMetaStatus, Index};
use blockstore::metrics::BlockstoreInsertionMetrics;
use blockstore::purge::PurgeType;
use blockstore::records::{BlockstoreError, Entry, VersionedTransaction};
use blockstore::shred::Shred;
use blockstore::types::{Blockhash, Signature, Slot};

const NOW: u64 = 1_000_000;
const NO_RECOVERY: Option<fn(Vec<Vec<Shred>>) -> Vec<RecoveredShred>> = None;

fn open() -> Blockstore {
    Blockstore::open(Ledger::new(), NOW)
}

/// The data shreds of a slot of one erasure set, and as many coding shreds.
fn setup_erasure_shreds(slot: Slot, parent: Slot, num_entries: u64) -> (Vec<Shred>, Vec<Shred>) {
    let mut entries = vec![];
    for x in 0..num_entries {
        let x = x as u128;
        entries.push(Entry {
            num_hashes: 1,
            hash: Blockhash { w0: x, w1: 1 },
            transactions: vec![VersionedTransaction {
                signature: Signature { w0: x, w1: x, w2: x, w3: x },
                other_signatures: vec![],
                is_legacy: true,
                message: vec![7; 40],
            }],
        });
        entries.append(&mut create_ticks(1, Blockhash { w0: x, w1: 2 }));
    }
    let data = entries_to_test_shreds(&entries, slot, parent, true, 0).unwrap();
    let n = data.len() as u16;
    assert!(n <= 32);
    let coding =
        (0..n).map(|i| Shred::new_empty_coding(slot, i as u32, 0, n, n, i, 0)).collect();
    (data, coding)
}

/// Inserts, and recovers the data shreds of the set that are not among the available ones.
fn insert_recovering(
    blockstore: &mut Blockstore,
    shreds: Vec<Shred>,
    data_shreds: &[Shred],
    verified: Option<bool>,
) -> (InsertionOutcome, BlockstoreInsertionMetrics) {
    let repaired = vec![false; shreds.len()];
    let mut metrics = BlockstoreInsertionMetrics::default();
    let recover = |sets: Vec<Vec<Shred>>| {
        let mut recovered = vec![];
        for set in sets {
            // Enough shreds are handed out for each set.
            assert!(set.len() >= data_shreds.len());
            for shred in data_shreds {
                if !set.contains(shred) {
                    recovered.push(RecoveredShred { shred: shred.clone(), verified });
                }
            }
        }
        recovered
    };
    let outcome = blockstore.insert_shreds_handle_duplicate(
        shreds,
        repaired,
        Some(recover),
        false,
        true,
        NOW,
        &mut metrics,
    );
    (outcome, metrics)
}

fn verify_index_integrity(blockstore: &Blockstore, slot: Slot) {
    let shred_index = blockstore.get_index(slot).unwrap();
    let mut num_data = 0;
    for (key, _) in blockstore.slot_data_iterator(slot, 0) {
        num_data += 1;
        assert!(blockstore.get_data_shred(key.slot, key.index).is_some());
        assert!(shred_index.data.is_present(key.index));
    }
    assert_eq!(shred_index.data.num_shreds(), num_data);
    let mut num_coding = 0;
    for (key, _) in blockstore.slot_coding_iterator(slot, 0) {
        num_coding += 1;
        assert!(blockstore.get_coding_shred(key.slot, key.index).is_some());
        assert!(shred_index.coding.is_present(key.index));
    }
    assert_eq!(shred_index.coding.num_shreds(), num_coding);
}

#[test]
fn test_recovery() {
    let mut blockstore = open();
    let slot = 1;
    let (data_shreds, coding_shreds) = setup_erasure_shreds(slot, 0, 100);
    let (outcome, metrics) =
        insert_recovering(&mut blockstore, coding_shreds, &data_shreds, Some(true));
    for shred in &data_shreds {
        assert_eq!(
            blockstore.get_data_shred(shred.slot(), shred.index() as u64).unwrap(),
            shred.payload
        );
    }
    verify_index_integrity(&blockstore, slot);
    assert_eq!(outcome.retransmit, data_shreds);
    assert_eq!(outcome.newly_completed_slots, vec![slot]);
    assert_eq!(
        outcome.completed_data_sets,
        vec![CompletedDataSetInfo {
            slot,
            start_index: 0,
            end_index: data_shreds.len() as u32 - 1
        }]
    );
    assert_eq!(outcome.full_slots.len(), 1);
    assert_eq!(outcome.full_slots[0].num_recovered, data_shreds.len());
    assert_eq!(metrics.num_recovered, data_shreds.len());
    assert_eq!(metrics.num_recovered_inserted, data_shreds.len());
    assert!(blockstore.is_full(slot));
}

#[test]
fn recovered_shreds_need_a_signature() {
    let slot = 1;
    let (data_shreds, coding_shreds) = setup_erasure_shreds(slot, 0, 100);
    let mut blockstore = open();
    let (outcome, metrics) =
        insert_recovering(&mut blockstore, coding_shreds.clone(), &data_shreds, Some(false));
    assert!(outcome.retransmit.is_empty());
    assert_eq!(metrics.num_recovered_failed_sig, data_shreds.len());
    assert!(blockstore.meta(slot).is_none());

    // Without a known leader nothing can be checked.
    let mut blockstore = open();
    let (_, metrics) = insert_recovering(&mut blockstore, coding_shreds, &data_shreds, None);
    assert_eq!(metrics.num_recovered, data_shreds.len());
    assert_eq!(metrics.num_recovered_failed_sig, 0);
    assert!(blockstore.meta(slot).is_none());
}

#[test]
fn recovered_shreds_that_cannot_be_stored_are_passed_over() {
    let slot = 1;
    let (mut data_shreds, coding_shreds) = setup_erasure_shreds(slot, 0, 100);
    // A size beyond the payload
    data_shreds[0].data_header.size = u16::MAX;
    let mut blockstore = open();
    let (outcome, metrics) =
        insert_recovering(&mut blockstore, coding_shreds, &data_shreds, Some(true));
    assert_eq!(metrics.num_recovered, data_shreds.len());
    assert_eq!(metrics.num_recovered_inserted, data_shreds.len() - 1);
    assert_eq!(metrics.num_recovered_failed_sig, 0);
    assert_eq!(outcome.retransmit, data_shreds[1..].to_vec());
    assert!(blockstore.get_data_shred(slot, 0).is_none());
    assert!(!blockstore.is_full(slot));
}

#[test]
fn recovered_shreds_that_are_refused_are_counted() {
    let slot = 1;
    let (mut data_shreds, coding_shreds) = setup_erasure_shreds(slot, 0, 100);
    // A size beyond the payload, and no parent
    data_shreds[0].data_header.size = u16::MAX;
    data_shreds[0].data_header.parent_offset = u16::MAX;
    // A coding shred in place of a data shred
    data_shreds[1] = coding_shreds[0].clone();
    let mut blockstore = open();
    let shreds = coding_shreds[1..].iter().cloned().chain([data_shreds[2].clone()]).collect();
    let (_, metrics) = insert_recovering(&mut blockstore, shreds, &data_shreds, Some(true));
    assert_eq!(metrics.num_recovered_failed_invalid, 2);
    assert_eq!(metrics.num_recovered, data_shreds.len() - 1);
}

#[test]
fn test_index_integrity() {
    let slot = 1;
    let num_entries = 100;
    let (data_shreds, coding_shreds) = setup_erasure_shreds(slot, 0, num_entries);
    assert!(data_shreds.len() > 3);
    assert!(coding_shreds.len() > 3);
    let mut blockstore = open();
    let n = data_shreds.len();
    let m = coding_shreds.len();
    let join = |data: &[Shred], coding: &[Shred]| -> Vec<Shred> {
        data.iter().cloned().chain(coding.iter().cloned()).collect()
    };
    let rounds: Vec<Vec<Vec<Shred>>> = vec![
        // All shreds
        vec![join(&data_shreds, &coding_shreds)],
        // The coding shreds, enough for recovery
        vec![coding_shreds.clone()],
        // Not enough coding shreds
        vec![coding_shreds[..m - 1].to_vec()],
        // Coding shreds and some data, enough for recovery
        vec![join(&data_shreds[..n - 1], &coding_shreds[..m - 1])],
        // Some of both
        vec![join(&data_shreds[..n / 2 - 1], &coding_shreds[..m / 2 - 1])],
        // All shreds in two rounds
        vec![
            join(&data_shreds[..n / 2 - 1], &coding_shreds[..m / 2 - 1]),
            join(&data_shreds[n / 2 - 1..], &coding_shreds[m / 2 - 1..]),
        ],
        // Enough for recovery, in two rounds
        vec![
            join(&data_shreds[..n / 2 - 1], &coding_shreds[..m / 2 - 1]),
            join(&data_shreds[n / 2 - 1..n / 2], &coding_shreds[m / 2 - 1..m / 2]),
        ],
        // Not enough, in two rounds
        vec![
            join(&data_shreds[..n / 2 - 2], &coding_shreds[..m / 2 - 2]),
            join(&data_shreds[n / 2 - 2..n / 2 - 1], &coding_shreds[m / 2 - 2..m / 2 - 1]),
        ],
    ];
    for round in rounds {
        for shreds in round {
            insert_recovering(&mut blockstore, shreds, &data_shreds, Some(true));
        }
        verify_index_integrity(&blockstore, slot);
        blockstore.run_purge(0, slot, PurgeType::PrimaryIndex);
        assert!(blockstore.get_index(slot).is_none());
    }
}

#[test]
fn erasure_multiple_config() {
    let slot = 1;
    let (shreds, coding1) = setup_erasure_shreds(slot, 0, 100);
    assert!(shreds.len() > 1);
    let n = shreds.len() as u16;
    let mut blockstore = open();
    // The same set with more coding shreds
    let other = Shred::new_empty_coding(slot, 1, 0, n, n + 3, 1, 0);
    blockstore.insert_shreds(shreds[..shreds.len() - 2].to_vec(), NO_RECOVERY, false, false, NOW);
    blockstore.insert_shreds(vec![coding1[0].clone(), other.clone()], NO_RECOVERY, false, false, NOW);
    assert!(blockstore.has_duplicate_shreds_in_slot(slot));
    let found = blockstore.get_duplicate_slot(slot).unwrap();
    assert_eq!(found.shred1, coding1[0].payload);
    assert_eq!(found.shred2, other.payload);
    assert!(blockstore.get_coding_shred(slot, 1).is_none());

    // The conflict is found in the ledger too.
    let mut blockstore = open();
    blockstore.insert_shreds(vec![coding1[0].clone()], NO_RECOVERY, false, false, NOW);
    assert_eq!(
        blockstore.erasure_meta(slot, 0),
        Some(ErasureMeta {
            set_index: 0,
            first_coding_index: 0,
            config: ErasureConfig { num_data: n as u64, num_coding: n as u64 },
        })
    );
    blockstore.insert_shreds(vec![other.clone()], NO_RECOVERY, false, false, NOW);
    assert_eq!(blockstore.get_duplicate_slot(slot).unwrap().shred2, other.payload);
}

#[test]
fn test_large_num_coding() {
    let slot = 1;
    let (data_shreds, mut coding_shreds) = setup_erasure_shreds(slot, 0, 100);
    let mut blockstore = open();
    coding_shreds[1].coding_header.num_coding_shreds = u16::MAX;
    insert_recovering(
        &mut blockstore,
        vec![coding_shreds[1].clone()],
        &data_shreds,
        Some(true),
    );
    let res = blockstore.get_coding_shreds_for_slot(slot, 0).unwrap();
    assert!(res.is_empty());
}

#[test]
fn erasure_sets_are_counted() {
    let mut index = Index::new(0);
    let meta = ErasureMeta {
        set_index: 5,
        first_coding_index: 0,
        config: ErasureConfig { num_data: 4, num_coding: 3 },
    };
    assert_eq!(meta.status(&index), ErasureMetaStatus::StillNeed(4));
    index.data.set_present(5, true);
    index.data.set_present(9, true);
    index.coding.set_present(5, true);
    assert_eq!(meta.status(&index), ErasureMetaStatus::StillNeed(2));
    index.coding.set_present(6, true);
    index.coding.set_present(7, true);
    assert_eq!(meta.status(&index), ErasureMetaStatus::CanRecover);
    for i in 6..9 {
        index.data.set_present(i, true);
    }
    assert_eq!(meta.status(&index), ErasureMetaStatus::DataFull);
    // With a first coding index the coding shreds stand there.
    let moved = ErasureMeta { first_coding_index: 20, ..meta };
    index.data.set_present(8, false);
    assert_eq!(moved.status(&index), ErasureMetaStatus::StillNeed(1));
    index.coding.set_present(22, true);
    assert_eq!(moved.status(&index), ErasureMetaStatus::CanRecover);
}

// Whatever comes first, the insertion that makes the slot dead, though full, or the reading of
// its entries: nobody gets full entries of a dead slot.
#[test]
fn test_get_slot_entries_dead_slot_race() {
    for insert_first in [true, false] {
        let mut blockstore = Blockstore::open(Ledger::new(), NOW);
        for slot in 0..100u64 {
            let num_shreds = 10;
            let middle_shred_index = 5;
            let num_entries = max_ticks_per_n_shreds(num_shreds);
            let (mut shreds, _) = make_slot_entries(slot, 0, num_entries).unwrap();
            // The last shred comes first and sets the height.
            shreds.reverse();
            // The real middle shred comes last.
            shreds.push(shreds[middle_shred_index].clone());
            // The middle shred ends the slot, which makes the slot dead.
            shreds[middle_shred_index].set_last_in_slot();

            if !insert_first {
                let (entries, _, is_full) =
                    blockstore.get_slot_entries_with_shred_info(slot, 0, false).unwrap();
                assert!(entries.is_empty());
                assert!(!is_full);
            }
            blockstore.insert_shreds(shreds, NO_RECOVERY, false, false, NOW);
            assert!(blockstore.get_duplicate_slot(slot).is_some());
            assert!(blockstore.is_dead(slot));
            assert!(blockstore.meta(slot).unwrap().is_full());
            let result = blockstore.get_slot_entries_with_shred_info(slot, 0, false);
            assert!(matches!(result, Err(BlockstoreError::DeadSlot)));
        }
    }
}
