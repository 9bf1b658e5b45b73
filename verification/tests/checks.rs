use blockstore::batch::RecoveredShred;
use blockstore::blockstore::Blockstore;
use blockstore::column::{Column, KeySet, SlotIndex};
use blockstore::fixtures::{create_ticks, entries_to_test_shreds, make_chaining_slot_entries,
    make_slot_entries};
use blockstore::insertion::InsertionState;
use blockstore::ledger::Ledger;
use blockstore::meta::ShredIndex;
use blockstore::metrics::BlockstoreInsertionMetrics;
use blockstore::records::{BlockstoreError, Entry, InvalidShredData};
use blockstore::shred::Shred;
use blockstore::slot_update::{update_completed_data_indexes, verify_shred_slots};
use blockstore::types::{Blockhash, Slot};

const NOW: u64 = 1_000_000;
const NO_RECOVERY: Option<fn(Vec<Vec<Shred>>) -> Vec<RecoveredShred>> = None;

fn open() -> Blockstore {
    Blockstore::open(Ledger::new(), NOW)
}

fn slot_shreds(slot: Slot, parent: Slot, num_entries: u64) -> (Vec<Shred>, Vec<Entry>) {
    make_slot_entries(slot, parent, num_entries).unwrap()
}

fn no_shreds() -> Column<SlotIndex, Shred> {
    Column::new()
}

fn index_set(indexes: &[u32]) -> KeySet<u32> {
    let mut set = KeySet::new();
    for i in indexes {
        set.insert(*i);
    }
    set
}

#[test]
fn test_should_insert_data_shred() {
    let (mut shreds, _) = slot_shreds(0, 0, 200);
    let mut blockstore = open();

    // The first five shreds hold no last shred.
    blockstore.insert_shreds(shreds[0..5].to_vec(), NO_RECOVERY, false, false, NOW);
    let slot_meta = blockstore.meta(0).unwrap();
    // A shred that is too large.
    let mut shred5 = shreds[5].clone();
    shred5.payload.push(10);
    shred5.data_header.size = shred5.payload.len() as u16;
    assert!(!blockstore.should_insert_data_shred(&shred5, &slot_meta, &no_shreds()));

    // A shred without data may be inserted, but not one without size.
    let mut empty_shred = Shred::new_from_data(
        shred5.common_header.slot,
        shred5.common_header.index,
        shred5.data_header.parent_offset,
        &vec![],
        true,
        true,
        0,
        shred5.common_header.version,
        shred5.fec_set_index(),
    );
    assert!(blockstore.should_insert_data_shred(&empty_shred, &slot_meta, &no_shreds()));
    empty_shred.data_header.size = 0;
    assert!(!blockstore.should_insert_data_shred(&empty_shred, &slot_meta, &no_shreds()));

    // Another last shred below the received height is refused.
    blockstore.insert_shreds(shreds[8..9].to_vec(), NO_RECOVERY, false, false, NOW);
    let slot_meta = blockstore.meta(0).unwrap();
    assert_eq!(slot_meta.received, 9);
    assert!(shreds[7].is_data());
    shreds[7].set_last_in_slot();
    let shred7 = shreds[7].clone();
    assert!(!blockstore.should_insert_data_shred(&shred7, &slot_meta, &no_shreds()));
    assert!(blockstore.has_duplicate_shreds_in_slot(0));

    // So is one once the last shred is known.
    let mut shred8 = shreds[8].clone();
    blockstore.insert_shreds(shreds, NO_RECOVERY, false, false, NOW);
    let slot_meta = blockstore.meta(0).unwrap();
    assert!(shred8.is_data());
    shred8.set_slot(slot_meta.last_index.unwrap() + 1);
    assert!(!blockstore.should_insert_data_shred(&shred7, &slot_meta, &no_shreds()));
}

#[test]
fn test_is_data_shred_present() {
    let (shreds, _) = slot_shreds(0, 0, 200);
    let mut blockstore = open();
    blockstore.insert_shreds(shreds[0..5].to_vec(), NO_RECOVERY, false, false, NOW);
    let slot_meta = blockstore.meta(0).unwrap();
    let index = blockstore.get_index(0).unwrap();
    assert_eq!(slot_meta.consumed, 5);
    assert!(Blockstore::is_data_shred_present(&shreds[1], &slot_meta, &index.data));

    blockstore.insert_shreds(shreds[6..7].to_vec(), NO_RECOVERY, false, false, NOW);
    let slot_meta = blockstore.meta(0).unwrap();
    let index = blockstore.get_index(0).unwrap();
    assert!(Blockstore::is_data_shred_present(&shreds[6], &slot_meta, &index.data));
    assert!(!Blockstore::is_data_shred_present(&shreds[5], &slot_meta, &index.data));
}

fn coding_shred(index: u32) -> Shred {
    Shred::new_empty_coding(1, index, 11, 11, 11, 8, 0)
}

#[test]
fn test_check_insert_coding_shred() {
    let mut blockstore = open();
    let mut state = InsertionState::new(BlockstoreInsertionMetrics::default());
    assert!(blockstore.check_insert_coding_shred(coding_shred(11), &mut state, false, false));
    assert!(state.duplicates.is_empty());
    assert_eq!(state.metrics.num_coding_shreds_inserted, 1);

    // The same shred again is a duplicate.
    assert!(!blockstore.check_insert_coding_shred(coding_shred(11), &mut state, false, false));
    assert_eq!(state.duplicates.len(), 1);
    assert_eq!(state.metrics.num_coding_shreds_exists, 1);
}

#[test]
fn test_should_insert_coding_shred() {
    let mut blockstore = open();
    let last_root = 0;
    let good = coding_shred(11);
    assert!(Blockstore::should_insert_coding_shred(&good, last_root));
    blockstore.insert_shreds(vec![good.clone()], NO_RECOVERY, false, false, NOW);
    // Duplicates are not looked for here.
    assert!(Blockstore::should_insert_coding_shred(&good, last_root));
    assert!(Blockstore::should_insert_coding_shred(&coding_shred(12), last_root));

    // index < position
    {
        let mut shred = coding_shred(12);
        let index = shred.index() - shred.fec_set_index() - 1;
        shred.set_index(index);
        assert!(!Blockstore::should_insert_coding_shred(&shred, last_root));
    }
    // num_coding == 0
    {
        let mut shred = coding_shred(12);
        shred.coding_header.num_coding_shreds = 0;
        assert!(!Blockstore::should_insert_coding_shred(&shred, last_root));
    }
    // position >= num_coding
    {
        let mut shred = coding_shred(12);
        let num_coding_shreds = shred.index() - shred.fec_set_index();
        shred.coding_header.num_coding_shreds = num_coding_shreds as u16;
        assert!(!Blockstore::should_insert_coding_shred(&shred, last_root));
    }
    // A set whose last shred has an index above 32 bits
    {
        let mut shred = coding_shred(12);
        shred.common_header.fec_set_index = u32::MAX - 1;
        shred.coding_header.num_data_shreds = 2;
        shred.coding_header.num_coding_shreds = 3;
        shred.coding_header.position = 1;
        shred.common_header.index = u32::MAX - 1;
        assert!(!Blockstore::should_insert_coding_shred(&shred, last_root));
        shred.coding_header.num_coding_shreds = 2000;
        assert!(!Blockstore::should_insert_coding_shred(&shred, last_root));
        // Fewer coding shreds are within the limit.
        shred.coding_header.num_coding_shreds = 2;
        assert!(Blockstore::should_insert_coding_shred(&shred, last_root));
        blockstore.insert_shreds(vec![shred], NO_RECOVERY, false, false, NOW);
        assert!(blockstore.get_coding_shred(1, (u32::MAX - 1) as u64).is_some());
    }
    // A slot that is not above the last root
    {
        let mut shred = coding_shred(12);
        shred.set_slot(last_root);
        assert!(!Blockstore::should_insert_coding_shred(&shred, last_root));
    }
}

#[test]
fn test_insert_multiple_is_last() {
    let (shreds, _) = slot_shreds(0, 0, 20);
    let num_shreds = shreds.len() as u64;
    let mut blockstore = open();
    blockstore.insert_shreds(shreds, NO_RECOVERY, false, false, NOW);
    let slot_meta = blockstore.meta(0).unwrap();
    assert_eq!(slot_meta.consumed, num_shreds);
    assert_eq!(slot_meta.received, num_shreds);
    assert_eq!(slot_meta.last_index, Some(num_shreds - 1));
    assert!(slot_meta.is_full());

    let (shreds, _) = slot_shreds(0, 0, 22);
    blockstore.insert_shreds(shreds, NO_RECOVERY, false, false, NOW);
    let slot_meta = blockstore.meta(0).unwrap();
    assert_eq!(slot_meta.consumed, num_shreds);
    assert_eq!(slot_meta.received, num_shreds);
    assert_eq!(slot_meta.last_index, Some(num_shreds - 1));
    assert!(slot_meta.is_full());
    assert!(blockstore.has_duplicate_shreds_in_slot(0));
}

#[test]
fn test_slot_data_iterator() {
    let mut blockstore = open();
    let shreds_per_slot = 10;
    let slots = vec![2, 4, 8, 12];
    let all_shreds = make_chaining_slot_entries(&slots, shreds_per_slot).unwrap();
    let slot_8_shreds = all_shreds[2].0.clone();
    for (slot_shreds, _) in all_shreds {
        blockstore.insert_shreds(slot_shreds, NO_RECOVERY, false, false, NOW);
    }
    assert_eq!(blockstore.slot_data_iterator(5, 0), vec![]);
    let result: Vec<Shred> = blockstore
        .slot_data_iterator(8, 0)
        .into_iter()
        .filter_map(|(_, bytes)| Shred::new_from_serialized_shred(&bytes))
        .collect();
    assert_eq!(result.len(), slot_8_shreds.len());
    assert_eq!(result, slot_8_shreds);
    assert_eq!(blockstore.get_data_shreds_for_slot(8, 0), Some(slot_8_shreds));
    assert_eq!(blockstore.get_coding_shreds_for_slot(8, 0), Some(vec![]));
}

#[test]
fn test_get_completed_data_ranges() {
    let ends = [2u32, 4, 9, 11];
    let set = index_set(&ends);
    assert_eq!(Blockstore::get_completed_data_ranges(0, &set, 1), vec![]);
    assert_eq!(Blockstore::get_completed_data_ranges(0, &set, 3), vec![(0, 2)]);
    for i in 0..ends.len() {
        for j in i..ends.len() {
            let start_index = ends[i];
            let consumed = ends[j] + 1;
            let mut expected = vec![(start_index, start_index)];
            expected.extend(ends[i..=j].windows(2).map(|pair| (pair[0] + 1, pair[1])));
            assert_eq!(
                Blockstore::get_completed_data_ranges(start_index, &set, consumed),
                expected
            );
        }
    }
}

#[test]
fn test_get_slot_entries_with_shred_count_corruption() {
    let mut blockstore = open();
    let num_ticks = 8;
    let entries = create_ticks(num_ticks, Blockhash::default());
    let slot = 1;
    let shreds = entries_to_test_shreds(&entries, slot, 0, false, 0).unwrap();
    let next_shred_index = shreds.len() as u32;
    blockstore.insert_shreds(shreds, NO_RECOVERY, false, false, NOW);
    assert_eq!(blockstore.get_slot_entries(slot, 0).unwrap().len() as u64, num_ticks);

    // A shred that does not decode to entries spoils the slot.
    let shred = Shred::new_from_data(
        slot,
        next_shred_index,
        1,
        &vec![1, 1, 1],
        true,
        true,
        0,
        0,
        next_shred_index,
    );
    blockstore.insert_shreds(vec![shred], NO_RECOVERY, false, false, NOW);
    assert!(matches!(
        blockstore.get_slot_entries(slot, 0),
        Err(BlockstoreError::InvalidShredData(InvalidShredData::Entries))
    ));
    // What can be read is still to be had.
    assert_eq!(blockstore.get_any_valid_slot_entries(slot, 0), entries);
}

#[test]
fn test_trusted_insert_shreds() {
    let mut blockstore = open();
    let (shreds1, _) = slot_shreds(1, 0, 1);
    let last_root = 100;
    blockstore.set_roots(&vec![last_root]);

    // The slot is below the root.
    blockstore.insert_shreds(shreds1.clone(), NO_RECOVERY, false, false, NOW);
    assert!(blockstore.get_data_shred(1, 0).is_none());
    blockstore.insert_shreds(shreds1, NO_RECOVERY, true, false, NOW);
    assert!(blockstore.get_data_shred(1, 0).is_some());
}

#[test]
fn test_update_completed_data_indexes() {
    let mut completed_data_indexes = KeySet::new();
    let mut shred_index = ShredIndex::new();
    for i in 0..10 {
        shred_index.set_present(i as u64, true);
        assert_eq!(
            update_completed_data_indexes(true, i, &shred_index, &mut completed_data_indexes),
            vec![(i, i)]
        );
        assert!(completed_data_indexes.same(&index_set(&(0..=i).collect::<Vec<_>>())));
    }
}

#[test]
fn test_update_completed_data_indexes_out_of_order() {
    let mut completed_data_indexes = KeySet::new();
    let mut shred_index = ShredIndex::new();

    shred_index.set_present(4, true);
    assert!(update_completed_data_indexes(false, 4, &shred_index, &mut completed_data_indexes)
        .is_empty());
    assert_eq!(completed_data_indexes.len(), 0);

    shred_index.set_present(2, true);
    assert!(update_completed_data_indexes(false, 2, &shred_index, &mut completed_data_indexes)
        .is_empty());
    assert_eq!(completed_data_indexes.len(), 0);

    shred_index.set_present(3, true);
    assert!(update_completed_data_indexes(true, 3, &shred_index, &mut completed_data_indexes)
        .is_empty());
    assert!(completed_data_indexes.same(&index_set(&[3])));

    // Shred 1 ends a run: 2 to 3 is complete.
    shred_index.set_present(1, true);
    assert_eq!(
        update_completed_data_indexes(true, 1, &shred_index, &mut completed_data_indexes),
        vec![(2, 3)]
    );
    assert!(completed_data_indexes.same(&index_set(&[1, 3])));

    // Shred 0 completes 0, and, ending a run itself, 1.
    shred_index.set_present(0, true);
    assert_eq!(
        update_completed_data_indexes(true, 0, &shred_index, &mut completed_data_indexes),
        vec![(0, 0), (1, 1)]
    );
    assert!(completed_data_indexes.same(&index_set(&[0, 1, 3])));
}

#[test]
fn shreds_chain_to_slots_between_root_and_slot() {
    assert!(verify_shred_slots(0, 0, 0));
    assert!(!verify_shred_slots(0, 0, 1));
    assert!(verify_shred_slots(2, 1, 0));
    assert!(verify_shred_slots(2, 1, 1));
    assert!(!verify_shred_slots(2, 1, 2));
    assert!(!verify_shred_slots(2, 2, 0));
    assert!(!verify_shred_slots(2, 3, 0));
}
