use blockstore::batch::{InsertionOutcome, RecoveredShred};
use blockstore::blockstore::Blockstore;
use blockstore::column::SlotIndex;
use blockstore::fixtures::{
    create_ticks, entries_to_test_shreds, make_chaining_slot_entries, make_many_slot_entries,
    make_many_slot_shreds, make_slot_entries, max_ticks_per_n_shreds,
};
use blockstore::insertion::CompletedDataSetInfo;
use blockstore::ledger::{Ledger, WriteOp};
use blockstore::meta::SlotMeta;
use blockstore::purge::PurgeType;
use blockstore::records::Entry;
use blockstore::shred::{Shred, SHRED_PAYLOAD_SIZE};
use blockstore::shredder::Shredder;
use blockstore::types::{Blockhash, Slot};

const NOW: u64 = 1_000_000;
const NO_RECOVERY: Option<fn(Vec<Vec<Shred>>) -> Vec<RecoveredShred>> = None;
const NO_CODE: Option<fn(Vec<Shred>) -> Vec<Shred>> = None;

fn open() -> Blockstore {
    Blockstore::open(Ledger::new(), NOW)
}

fn slot_shreds(slot: Slot, parent: Slot, num_entries: u64) -> (Vec<Shred>, Vec<Entry>) {
    make_slot_entries(slot, parent, num_entries).unwrap()
}

fn test_shreds(entries: &[Entry], slot: Slot, parent: Slot, is_full: bool) -> Vec<Shred> {
    entries_to_test_shreds(&entries.to_vec(), slot, parent, is_full, 0).unwrap()
}

/// Inserts, and tells what a receiver of completed slots would be told.
fn insert_signalled(blockstore: &mut Blockstore, shreds: Vec<Shred>) -> InsertionOutcome {
    blockstore.insert_shreds(shreds, NO_RECOVERY, false, true, NOW)
}

fn entries_of(blockstore: &Blockstore, slot: Slot, start: u64) -> Vec<Entry> {
    blockstore.get_slot_entries(slot, start).unwrap()
}

#[test]
fn test_insert_get_bytes() {
    // Enough entries for at least two shreds.
    let num_entries = max_ticks_per_n_shreds(1) + 1;
    assert!(num_entries > 1);
    let (mut shreds, _) = slot_shreds(0, 0, num_entries);
    let mut blockstore = open();

    let last_shred = shreds.pop().unwrap();
    assert!(last_shred.index() > 0);
    blockstore.insert_shreds(vec![last_shred.clone()], NO_RECOVERY, false, false, NOW);

    let key = SlotIndex { slot: 0, index: last_shred.index() as u64 };
    let serialized_shred = blockstore.ledger.data_shreds.get(&key).unwrap();
    let deserialized_shred = Shred::new_from_serialized_shred(serialized_shred).unwrap();
    assert_eq!(last_shred, deserialized_shred);
}

#[test]
fn test_write_entries() {
    let mut blockstore = open();
    let ticks_per_slot = 10;
    let num_slots = 10u64;
    let mut ticks = vec![];
    let mut shreds_per_slot = vec![];
    for i in 0..num_slots {
        let mut new_ticks = create_ticks(ticks_per_slot, Blockhash::default());
        let num_shreds = blockstore
            .write_entries(
                i,
                0,
                0,
                ticks_per_slot,
                Some(i.saturating_sub(1)),
                true,
                new_ticks.clone(),
                0,
                NO_CODE,
                NOW,
            )
            .unwrap() as u64;
        shreds_per_slot.push(num_shreds);
        ticks.append(&mut new_ticks);
    }
    for i in 0..num_slots {
        let meta = blockstore.meta(i).unwrap();
        let num_shreds = shreds_per_slot[i as usize];
        assert_eq!(meta.consumed, num_shreds);
        assert_eq!(meta.received, num_shreds);
        assert_eq!(meta.last_index, Some(num_shreds - 1));
        if i == num_slots - 1 {
            assert!(meta.next_slots.is_empty());
        } else {
            assert_eq!(meta.next_slots, vec![i + 1]);
        }
        if i == 0 {
            assert_eq!(meta.parent_slot, Some(0));
        } else {
            assert_eq!(meta.parent_slot, Some(i - 1));
        }
        assert_eq!(
            &ticks[(i * ticks_per_slot) as usize..((i + 1) * ticks_per_slot) as usize],
            &entries_of(&blockstore, i, 0)[..]
        );
    }
}

#[test]
fn entries_spill_into_the_next_slot() {
    let mut blockstore = open();
    // Slot 3 has two of its four ticks; five more make it full and start slot 4.
    let entries = create_ticks(5, Blockhash { w0: 7, w1: 8 });
    assert_eq!(
        blockstore.write_entries(3, 2, 0, 4, Some(2), false, entries.clone(), 0, NO_CODE, NOW),
        Some(2)
    );
    assert!(blockstore.meta(3).unwrap().is_full());
    assert_eq!(entries_of(&blockstore, 3, 0), entries[..2].to_vec());
    assert_eq!(entries_of(&blockstore, 4, 0), entries[2..].to_vec());
    let meta = blockstore.meta(4).unwrap();
    assert!(!meta.is_full());
    assert_eq!(meta.parent_slot, Some(3));
}

#[test]
fn written_entries_are_coded() {
    let mut blockstore = open();
    // Two data shreds, and as many coding shreds
    let entries = create_ticks(max_ticks_per_n_shreds(1) + 1, Blockhash::default());
    let code = |data: Vec<Shred>| -> Vec<Shred> {
        let n = data.len() as u16;
        assert!(data.iter().all(|shred| shred.is_data() && shred.slot() == 5));
        (0..n).map(|i| Shred::new_empty_coding(5, i as u32, 0, n, n, i, 0)).collect()
    };
    let ticks = entries.len() as u64;
    let num_data = blockstore
        .write_entries(5, 0, 0, ticks, Some(4), true, entries.clone(), 0, Some(code), NOW)
        .unwrap();
    assert_eq!(num_data, 2);
    assert_eq!(entries_of(&blockstore, 5, 0), entries);
    assert!(blockstore.is_full(5));
    let index = blockstore.get_index(5).unwrap();
    assert_eq!(index.data.num_shreds(), 2);
    assert_eq!(index.coding.num_shreds(), 2);
    assert!(blockstore.get_coding_shred(5, 1).is_some());
    assert!(blockstore.get_coding_shred(5, 2).is_none());
    assert!(blockstore.erasure_meta(5, 0).is_some());
}

#[test]
fn shreds_of_several_runs_come_one_by_one() {
    // Two runs, the second of which ends the slot, of three shreds each or so
    let first = create_ticks(max_ticks_per_n_shreds(2) + 1, Blockhash::default());
    let second = create_ticks(max_ticks_per_n_shreds(1) + 1, Blockhash::default());
    let shredder = Shredder { slot: 0, parent_slot: 0, reference_tick: 0, version: 0 };
    let mut shreds = shredder.entries_to_data_shreds(&first, false, 0).unwrap();
    let num_first = shreds.len();
    shreds.extend(shredder.entries_to_data_shreds(&second, true, num_first as u32).unwrap());
    let n = shreds.len() as u64;
    let all: Vec<Entry> = first.iter().chain(second.iter()).cloned().collect();

    // In reverse: nothing is given out before the first shred is there.
    let mut blockstore = open();
    for shred in shreds.iter().rev() {
        assert!(entries_of(&blockstore, 0, 0).is_empty());
        assert!(!blockstore.is_full(0));
        blockstore.insert_shreds(vec![shred.clone()], NO_RECOVERY, false, false, NOW);
    }
    let meta = blockstore.meta(0).unwrap();
    assert_eq!((meta.consumed, meta.received, meta.last_index), (n, n, Some(n - 1)));
    assert_eq!(meta.parent_slot, Some(0));
    assert_eq!(
        blockstore.get_slot_entries_with_shred_info(0, 0, false).unwrap(),
        (all.clone(), n, true)
    );

    // Odd before even, and some of them twice: the first run is complete before the slot is.
    let mut blockstore = open();
    let odd = shreds.iter().skip(1).step_by(2).cloned().collect::<Vec<_>>();
    blockstore.insert_shreds(odd.clone(), NO_RECOVERY, false, false, NOW);
    let even_first =
        shreds[..num_first].iter().step_by(2).cloned().chain(odd).collect::<Vec<_>>();
    blockstore.insert_shreds(even_first, NO_RECOVERY, false, false, NOW);
    assert_eq!(entries_of(&blockstore, 0, 0), first);
    blockstore.insert_shreds(shreds, NO_RECOVERY, false, false, NOW);
    assert_eq!(entries_of(&blockstore, 0, 0), all);
    assert!(blockstore.is_full(0));
}

#[test]
fn accepted_shreds_are_read_back_padded() {
    let (shreds, _) = slot_shreds(1, 0, 1);
    let mut blockstore = open();
    assert!(blockstore.get_data_shred(1, 0).is_none());
    let outcome = blockstore.insert_shreds(shreds.clone(), NO_RECOVERY, false, false, NOW);
    assert_eq!(outcome.inserted_indices, vec![0]);
    let n = shreds[0].data_header.size as usize;
    let read = blockstore.get_data_shred(1, 0).unwrap();
    assert_eq!(read.len(), SHRED_PAYLOAD_SIZE);
    assert_eq!(read[..n], shreds[0].payload[..n]);
    assert!(read[n..].iter().all(|byte| *byte == 0));
    // Another version of the shred does not replace it.
    let (others, _) = slot_shreds(1, 0, 2);
    blockstore.insert_shreds(others, NO_RECOVERY, false, false, NOW);
    assert_eq!(blockstore.get_data_shred(1, 0).unwrap(), read);
}

#[test]
fn test_put_get_simple() {
    let mut blockstore = open();

    let meta = SlotMeta::new(0, Some(1));
    blockstore.put_meta(0, SlotMeta::new(0, Some(1)));
    let result = blockstore.meta(0).expect("Expected meta object to exist");
    assert!(result.same(&meta));

    let erasure = vec![1u8; 16];
    let key = SlotIndex { slot: 0, index: 0 };
    blockstore.commit_one(WriteOp::PutCodeShred(key, erasure.clone()));
    let result = blockstore.get_coding_shred(0, 0).expect("Expected erasure object to exist");
    assert_eq!(result, erasure);

    let data = vec![2u8; 16];
    blockstore.commit_one(WriteOp::PutDataShred(key, data.clone()));
    let result = blockstore.ledger.data_shreds.get(&key).expect("Expected data object to exist");
    assert_eq!(*result, data);
}

#[test]
fn test_read_shred_bytes() {
    let slot = 0;
    let (shreds, _) = slot_shreds(slot, 0, 100);
    let num_shreds = shreds.len() as u64;
    let shred_bufs: Vec<_> = shreds.iter().map(|shred| shred.payload.clone()).collect();
    let mut blockstore = open();
    blockstore.insert_shreds(shreds, NO_RECOVERY, false, false, NOW);

    let (_, buf) = blockstore.get_data_shreds(slot, 0, 1, 4096).unwrap();
    let bytes = buf.len();
    assert_eq!(buf[..], shred_bufs[0][..bytes]);

    let (last_index, buf) = blockstore.get_data_shreds(slot, 0, 2, 4096).unwrap();
    let bytes2 = buf.len();
    assert_eq!(last_index, 1);
    assert!(bytes2 > bytes);
    assert_eq!(&buf[..bytes], &shred_bufs[0][..bytes]);
    assert_eq!(&buf[bytes..bytes2], &shred_bufs[1][..bytes2 - bytes]);

    // Room for a part of the second shred gives only the first.
    let (last_index, buf) = blockstore.get_data_shreds(slot, 0, 2, bytes + 1).unwrap();
    assert_eq!(last_index, 0);
    assert_eq!(buf.len(), bytes);
    let (last_index, buf) = blockstore.get_data_shreds(slot, 0, 2, bytes2 - 1).unwrap();
    assert_eq!(last_index, 0);
    assert_eq!(buf.len(), bytes);

    let (last_index, buf) =
        blockstore.get_data_shreds(slot, num_shreds - 1, num_shreds, bytes * 2).unwrap();
    assert_eq!(last_index, num_shreds - 1);
    assert_eq!(&buf[..], &shred_bufs[(num_shreds - 1) as usize][..buf.len()]);

    // Out of range.
    let (last_index, buf) =
        blockstore.get_data_shreds(slot, num_shreds, num_shreds + 2, bytes * 2).unwrap();
    assert_eq!(last_index, 0);
    assert_eq!(buf.len(), 0);
}

#[test]
fn test_shred_cleanup_check() {
    let slot = 1;
    let (shreds, _) = slot_shreds(slot, 0, 100);
    let mut blockstore = open();
    blockstore.insert_shreds(shreds, NO_RECOVERY, false, false, NOW);
    assert!(blockstore.get_data_shreds(slot, 0, 1, 4096).is_ok());

    let max_purge_slot = 1;
    blockstore.run_purge(0, max_purge_slot, PurgeType::PrimaryIndex);
    blockstore.set_lowest_cleanup_slot(max_purge_slot);
    assert!(blockstore.get_data_shreds(slot, 0, 1, 4096).is_err());
}

#[test]
fn test_insert_data_shreds_basic() {
    let num_entries = max_ticks_per_n_shreds(1) + 1;
    assert!(num_entries > 1);
    let (mut shreds, entries) = slot_shreds(0, 0, num_entries);
    let num_shreds = shreds.len() as u64;
    let mut blockstore = open();

    // Without the other shreds there are no consecutive ones.
    assert!(shreds.len() > 1);
    let last_shred = shreds.pop().unwrap();
    blockstore.insert_shreds(vec![last_shred], NO_RECOVERY, false, false, NOW);
    assert!(entries_of(&blockstore, 0, 0).is_empty());
    let meta = blockstore.meta(0).expect("Expected new metadata object to be created");
    assert!(meta.consumed == 0 && meta.received == num_shreds);

    blockstore.insert_shreds(shreds, NO_RECOVERY, false, false, NOW);
    assert_eq!(entries_of(&blockstore, 0, 0), entries);
    let meta = blockstore.meta(0).expect("Expected new metadata object to exist");
    assert_eq!(meta.consumed, num_shreds);
    assert_eq!(meta.received, num_shreds);
    assert_eq!(meta.parent_slot, Some(0));
    assert_eq!(meta.last_index, Some(num_shreds - 1));
    assert!(meta.next_slots.is_empty());
    assert!(meta.is_connected);
}

#[test]
fn test_insert_data_shreds_reverse() {
    let num_shreds = 10;
    let num_entries = max_ticks_per_n_shreds(num_shreds);
    let (mut shreds, entries) = slot_shreds(0, 0, num_entries);
    let num_shreds = shreds.len() as u64;
    let mut blockstore = open();
    for i in (0..num_shreds).rev() {
        let shred = shreds.pop().unwrap();
        blockstore.insert_shreds(vec![shred], NO_RECOVERY, false, false, NOW);
        let result = entries_of(&blockstore, 0, 0);
        let meta = blockstore.meta(0).expect("Expected metadata object to exist");
        assert_eq!(meta.last_index, Some(num_shreds - 1));
        if i != 0 {
            assert_eq!(result.len(), 0);
            assert!(meta.consumed == 0 && meta.received == num_shreds);
        } else {
            assert_eq!(meta.parent_slot, Some(0));
            assert_eq!(result, entries);
            assert!(meta.consumed == num_shreds && meta.received == num_shreds);
        }
    }
}

fn insert_data_shreds_slots(should_bulk_write: bool) {
    let mut blockstore = open();
    let num_entries = 20u64;
    let mut entries = vec![];
    let mut shreds = vec![];
    let mut num_shreds_per_slot = 0;
    for slot in 0..num_entries {
        let parent_slot = if slot == 0 { 0 } else { slot - 1 };
        let (mut shred, entry) = slot_shreds(slot, parent_slot, 1);
        num_shreds_per_slot = shred.len() as u64;
        shred.iter_mut().enumerate().for_each(|(_, shred)| shred.set_index(0));
        shreds.extend(shred);
        entries.extend(entry);
    }
    let num_shreds = shreds.len();
    if should_bulk_write {
        blockstore.insert_shreds(shreds, NO_RECOVERY, false, false, NOW);
    } else {
        for _ in 0..num_shreds {
            let shred = shreds.remove(0);
            blockstore.insert_shreds(vec![shred], NO_RECOVERY, false, false, NOW);
        }
    }
    for i in 0..num_entries - 1 {
        assert_eq!(entries_of(&blockstore, i, 0)[0], entries[i as usize]);
        let meta = blockstore.meta(i).unwrap();
        assert_eq!(meta.received, 1);
        assert_eq!(meta.last_index, Some(0));
        if i != 0 {
            assert_eq!(meta.parent_slot, Some(i - 1));
            assert_eq!(meta.consumed, 1);
        } else {
            assert_eq!(meta.parent_slot, Some(0));
            assert_eq!(meta.consumed, num_shreds_per_slot);
        }
    }
}

#[test]
fn test_insert_slots() {
    insert_data_shreds_slots(false);
    insert_data_shreds_slots(true);
}

#[test]
fn test_get_slot_entries1() {
    let mut blockstore = open();
    let entries = create_ticks(8, Blockhash::default());
    let shreds = test_shreds(&entries[0..4], 1, 0, false);
    blockstore.insert_shreds(shreds, NO_RECOVERY, false, false, NOW);
    let mut shreds1 = test_shreds(&entries[4..], 1, 0, false);
    for (i, b) in shreds1.iter_mut().enumerate() {
        b.set_index(8 + i as u32);
    }
    blockstore.insert_shreds(shreds1, NO_RECOVERY, false, false, NOW);
    assert_eq!(entries_of(&blockstore, 1, 0)[2..4], entries[2..4]);
}

#[test]
fn test_get_slot_entries3() {
    let mut blockstore = open();
    let num_slots = 5u64;
    let shreds_per_slot = 5u64;
    // A vector of one tick takes 56 bytes; a packet holds 1232.
    let entry_serialized_size = 56;
    let entries_per_slot = (shreds_per_slot * 1232) / entry_serialized_size;
    for slot in 0..num_slots {
        let entries = create_ticks(entries_per_slot, Blockhash::default());
        let shreds = test_shreds(&entries, slot, slot.saturating_sub(1), false);
        assert!(shreds.len() as u64 >= shreds_per_slot);
        blockstore.insert_shreds(shreds, NO_RECOVERY, false, false, NOW);
        assert_eq!(entries_of(&blockstore, slot, 0), entries);
    }
}

#[test]
fn test_insert_data_shreds_consecutive() {
    let mut blockstore = open();
    let min_entries = max_ticks_per_n_shreds(1) + 1;
    for i in 0..4 {
        let slot = i;
        let parent_slot = if i == 0 { 0 } else { i - 1 };
        let num_entries = min_entries * (i + 1);
        let (shreds, original_entries) = slot_shreds(slot, parent_slot, num_entries);
        let num_shreds = shreds.len() as u64;
        assert!(num_shreds > 1);
        let mut even_shreds = vec![];
        let mut odd_shreds = vec![];
        for (i, shred) in shreds.into_iter().enumerate() {
            if i % 2 == 0 {
                even_shreds.push(shred);
            } else {
                odd_shreds.push(shred);
            }
        }
        blockstore.insert_shreds(odd_shreds, NO_RECOVERY, false, false, NOW);
        assert_eq!(entries_of(&blockstore, slot, 0), vec![]);
        let meta = blockstore.meta(slot).unwrap();
        if num_shreds % 2 == 0 {
            assert_eq!(meta.received, num_shreds);
        } else {
            assert_eq!(meta.received, num_shreds - 1);
        }
        assert_eq!(meta.consumed, 0);
        if num_shreds % 2 == 0 {
            assert_eq!(meta.last_index, Some(num_shreds - 1));
        } else {
            assert_eq!(meta.last_index, None);
        }
        blockstore.insert_shreds(even_shreds, NO_RECOVERY, false, false, NOW);
        assert_eq!(entries_of(&blockstore, slot, 0), original_entries);
        let meta = blockstore.meta(slot).unwrap();
        assert_eq!(meta.received, num_shreds);
        assert_eq!(meta.consumed, num_shreds);
        assert_eq!(meta.parent_slot, Some(parent_slot));
        assert_eq!(meta.last_index, Some(num_shreds - 1));
    }
}

#[test]
fn test_data_set_completed_on_insert() {
    let mut blockstore = open();
    let slot = 0;
    let num_entries = max_ticks_per_n_shreds(1) + 1;
    let entries = create_ticks(num_entries, Blockhash::default());
    let shreds = test_shreds(&entries, slot, 0, true);
    let num_shreds = shreds.len();
    assert!(num_shreds > 1);
    assert!(blockstore
        .insert_shreds(shreds[1..].to_vec(), NO_RECOVERY, false, false, NOW)
        .completed_data_sets
        .is_empty());
    assert_eq!(
        blockstore
            .insert_shreds(vec![shreds[0].clone()], NO_RECOVERY, false, false, NOW)
            .completed_data_sets,
        vec![CompletedDataSetInfo { slot, start_index: 0, end_index: num_shreds as u32 - 1 }]
    );
    // Inserting the shreds again completes nothing, and sets them aside.
    let again = blockstore.insert_shreds(shreds.clone(), NO_RECOVERY, false, false, NOW);
    assert!(again.completed_data_sets.is_empty());
    assert_eq!(again.duplicates, shreds);
}

#[test]
fn test_new_shreds_signal() {
    let mut blockstore = open();
    let entries_per_slot = 50;
    let (mut shreds, _) = slot_shreds(0, 0, entries_per_slot);
    let shreds_per_slot = shreds.len() as u64;

    // The second shred alone makes no consecutive block.
    assert!(!insert_signalled(&mut blockstore, vec![shreds.remove(1)]).should_signal);
    assert!(insert_signalled(&mut blockstore, vec![shreds.remove(0)]).should_signal);
    assert!(insert_signalled(&mut blockstore, shreds).should_signal);

    // Other slots, each of which misses the shred at its number minus one.
    let num_slots = shreds_per_slot;
    let mut shreds = vec![];
    let mut missing_shreds = vec![];
    for slot in 1..num_slots + 1 {
        let (mut shreds_of_slot, _) = slot_shreds(slot, slot - 1, entries_per_slot);
        let missing_shred = shreds_of_slot.remove(slot as usize - 1);
        shreds.extend(shreds_of_slot);
        missing_shreds.push(missing_shred);
    }
    assert!(!insert_signalled(&mut blockstore, shreds).should_signal);

    // A shred for each slot that makes no consecutive block.
    let shreds: Vec<_> = (1..num_slots + 1)
        .flat_map(|slot| {
            let (mut shred, _) = slot_shreds(slot, slot - 1, 1);
            shred[0].set_index(2 * num_slots as u32);
            shred
        })
        .collect();
    assert!(!insert_signalled(&mut blockstore, shreds).should_signal);

    // Filling the holes of the first half.
    let missing_shreds2: Vec<_> = missing_shreds.drain((num_slots / 2) as usize..).collect();
    assert!(insert_signalled(&mut blockstore, missing_shreds).should_signal);
    insert_signalled(&mut blockstore, missing_shreds2);
}

#[test]
fn test_completed_shreds_signal() {
    let mut blockstore = open();
    let entries_per_slot = 10;
    let (mut shreds, _) = slot_shreds(0, 0, entries_per_slot);
    let shred0 = shreds.remove(0);
    assert!(insert_signalled(&mut blockstore, shreds).newly_completed_slots.is_empty());
    assert_eq!(insert_signalled(&mut blockstore, vec![shred0]).newly_completed_slots, vec![0]);
}

#[test]
fn completed_slots_are_told_only_where_someone_listens() {
    for listens in [false, true] {
        let mut blockstore = open();
        let (shreds, _) = slot_shreds(0, 0, 10);
        let outcome = blockstore.insert_shreds(shreds, NO_RECOVERY, false, listens, NOW);
        assert!(blockstore.is_full(0));
        assert_eq!(outcome.newly_completed_slots, if listens { vec![0] } else { vec![] });
    }
}

#[test]
fn the_last_accepted_shred_is_read_back() {
    let shred = |x: u8, len: usize| {
        Shred::new_from_data(2, 5, 1, &vec![x; len], false, false, 0, 0, 0)
    };
    let (first, second, third) = (shred(1, 30), shred(2, 10), shred(3, 20));
    let mut blockstore = open();
    assert_eq!(blockstore.get_data_shred(2, 5), None);
    let outcome =
        blockstore.insert_shreds(vec![first.clone()], NO_RECOVERY, false, false, NOW);
    assert_eq!(outcome.inserted_indices, vec![0]);
    // A checked shred leaves the one that is there.
    let outcome =
        blockstore.insert_shreds(vec![second.clone()], NO_RECOVERY, false, false, NOW);
    assert!(outcome.inserted_indices.is_empty());
    assert_eq!(blockstore.get_data_shred(2, 5), Some(first.payload));
    // Trusted ones take its place, the last of them for good.
    let outcome = blockstore.insert_shreds(
        vec![third, second.clone()],
        NO_RECOVERY,
        true,
        false,
        NOW,
    );
    assert_eq!(outcome.inserted_indices, vec![0, 1]);
    let read = blockstore.get_data_shred(2, 5).unwrap();
    assert_eq!(read.len(), SHRED_PAYLOAD_SIZE);
    assert_eq!(read, second.payload);
    assert_eq!(blockstore.get_data_shred(2, 4), None);
}

#[test]
fn test_completed_shreds_signal_orphans() {
    let mut blockstore = open();
    let entries_per_slot = 10;
    let slots = vec![2, 5, 10];
    let mut all_shreds = make_chaining_slot_entries(&slots, entries_per_slot).unwrap();
    let (mut orphan_child, _) = all_shreds.remove(2);
    let (mut orphan_shreds, _) = all_shreds.remove(1);

    let orphan_child0 = orphan_child.remove(0);
    assert!(insert_signalled(&mut blockstore, orphan_child).newly_completed_slots.is_empty());
    assert_eq!(
        insert_signalled(&mut blockstore, vec![orphan_child0]).newly_completed_slots,
        vec![slots[2]]
    );
    let orphan_shred0 = orphan_shreds.remove(0);
    assert!(insert_signalled(&mut blockstore, orphan_shreds).newly_completed_slots.is_empty());
    assert_eq!(
        insert_signalled(&mut blockstore, vec![orphan_shred0]).newly_completed_slots,
        vec![slots[1]]
    );
}

#[test]
fn test_completed_shreds_signal_many() {
    let mut blockstore = open();
    let entries_per_slot = 10;
    let mut slots = vec![2, 5, 10];
    let mut all_shreds = make_chaining_slot_entries(&slots, entries_per_slot).unwrap();
    let disconnected_slot = 4;
    let (shreds0, _) = all_shreds.remove(0);
    let (shreds1, _) = all_shreds.remove(0);
    let (shreds2, _) = all_shreds.remove(0);
    let (shreds3, _) = slot_shreds(disconnected_slot, 1, entries_per_slot);
    let all_shreds: Vec<_> =
        vec![shreds2, shreds0, shreds3, shreds1].into_iter().flatten().collect();
    let mut result = insert_signalled(&mut blockstore, all_shreds).newly_completed_slots;
    result.sort_unstable();
    slots.push(disconnected_slot);
    slots.sort_unstable();
    assert_eq!(result, slots);
}

#[test]
fn many_slot_shreds_fill_their_shreds() {
    let (shreds, entries) = make_many_slot_shreds(3, 2, 5).unwrap();
    assert_eq!(shreds.len(), 10);
    assert_eq!(entries.len() as u64, 2 * max_ticks_per_n_shreds(5));
    assert_eq!(max_ticks_per_n_shreds(1), 21);
    assert!(shreds.iter().all(|shred| shred.payload.len() == SHRED_PAYLOAD_SIZE));
    let (shreds, entries) = make_many_slot_entries(0, 3, 5).unwrap();
    assert_eq!(shreds.len(), 3);
    assert_eq!(entries.len(), 15);
}
