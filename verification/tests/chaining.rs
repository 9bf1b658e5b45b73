use blockstore::batch::RecoveredShred;
use blockstore::blockstore::Blockstore;
use blockstore::column::Column;
use blockstore::fixtures::{
    make_many_slot_entries, make_slot_entries, max_ticks_per_n_shreds,
};
use blockstore::ledger::Ledger;
use blockstore::meta::SlotMeta;
use blockstore::records::Entry;
use blockstore::shred::Shred;
use blockstore::slot_update::is_orphan;
use blockstore::types::{Blockhash, Slot};

const NOW: u64 = 1_000_000;
const NO_RECOVERY: Option<fn(Vec<Vec<Shred>>) -> Vec<RecoveredShred>> = None;

fn open() -> Blockstore {
    Blockstore::open(Ledger::new(), NOW)
}

fn slot_shreds(slot: Slot, parent: Slot, num_entries: u64) -> (Vec<Shred>, Vec<Entry>) {
    make_slot_entries(slot, parent, num_entries).unwrap()
}

#[test]
fn test_handle_chaining_basic() {
    let mut blockstore = open();
    let entries_per_slot = 5;
    let num_slots = 3;
    let (mut shreds, _) = make_many_slot_entries(0, num_slots, entries_per_slot).unwrap();
    let shreds_per_slot = shreds.len() / num_slots as usize;

    // 1) The first slot
    let shreds1 = shreds.drain(shreds_per_slot..2 * shreds_per_slot).collect();
    blockstore.insert_shreds(shreds1, NO_RECOVERY, false, false, NOW);
    let s1 = blockstore.meta(1).unwrap();
    assert!(s1.next_slots.is_empty());
    assert!(!s1.is_connected);
    assert_eq!(s1.parent_slot, Some(0));
    assert_eq!(s1.last_index, Some(shreds_per_slot as u64 - 1));

    // 2) The second slot
    let shreds2 = shreds.drain(shreds_per_slot..2 * shreds_per_slot).collect();
    blockstore.insert_shreds(shreds2, NO_RECOVERY, false, false, NOW);
    let s2 = blockstore.meta(2).unwrap();
    assert!(s2.next_slots.is_empty());
    assert!(!s2.is_connected);
    assert_eq!(s2.parent_slot, Some(1));
    assert_eq!(s2.last_index, Some(shreds_per_slot as u64 - 1));

    // The first slot chains to the second, but is not part of the trunk.
    let s1 = blockstore.meta(1).unwrap();
    assert_eq!(s1.next_slots, vec![2]);
    assert!(!s1.is_connected);
    assert_eq!(s1.parent_slot, Some(0));
    assert_eq!(s1.last_index, Some(shreds_per_slot as u64 - 1));

    // 3) The zeroth slot: every slot is part of the trunk
    blockstore.insert_shreds(shreds, NO_RECOVERY, false, false, NOW);
    for i in 0..3 {
        let s = blockstore.meta(i).unwrap();
        if i != 2 {
            assert_eq!(s.next_slots, vec![i + 1]);
        }
        if i == 0 {
            assert_eq!(s.parent_slot, Some(0));
        } else {
            assert_eq!(s.parent_slot, Some(i - 1));
        }
        assert_eq!(s.last_index, Some(shreds_per_slot as u64 - 1));
        assert!(s.is_connected);
    }
}

#[test]
fn test_handle_chaining_missing_slots() {
    let mut blockstore = open();
    let num_slots = 30u64;
    let entries_per_slot = 5;
    let mut slots = vec![];
    let mut missing_slots = vec![];
    let mut shreds_per_slot = 2;
    for slot in 0..num_slots {
        let parent_slot = if slot == 0 { 0 } else { slot - 1 };
        let (shreds, _) = slot_shreds(slot, parent_slot, entries_per_slot);
        shreds_per_slot = shreds.len();
        if slot % 2 == 1 {
            slots.extend(shreds);
        } else {
            missing_slots.extend(shreds);
        }
    }
    blockstore.insert_shreds(slots, NO_RECOVERY, false, false, NOW);
    for i in 0..num_slots {
        let s = blockstore.meta(i).unwrap();
        if i % 2 == 0 {
            assert_eq!(s.next_slots, vec![i + 1]);
            assert_eq!(s.parent_slot, None);
        } else {
            assert!(s.next_slots.is_empty());
            assert_eq!(s.parent_slot, Some(i - 1));
        }
        if i == 0 {
            assert!(s.is_connected);
        } else {
            assert!(!s.is_connected);
        }
    }
    blockstore.insert_shreds(missing_slots, NO_RECOVERY, false, false, NOW);
    for i in 0..num_slots {
        let s = blockstore.meta(i).unwrap();
        if i != num_slots - 1 {
            assert_eq!(s.next_slots, vec![i + 1]);
        } else {
            assert!(s.next_slots.is_empty());
        }
        if i == 0 {
            assert_eq!(s.parent_slot, Some(0));
        } else {
            assert_eq!(s.parent_slot, Some(i - 1));
        }
        assert_eq!(s.last_index, Some(shreds_per_slot as u64 - 1));
        assert!(s.is_connected);
    }
}

#[test]
fn test_forward_chaining_is_connected() {
    let mut blockstore = open();
    let num_slots = 15u64;
    let entries_per_slot = max_ticks_per_n_shreds(1) + 1;
    assert!(entries_per_slot > 1);
    let (mut shreds, _) = make_many_slot_entries(0, num_slots, entries_per_slot).unwrap();
    let shreds_per_slot = shreds.len() / num_slots as usize;
    assert!(shreds_per_slot > 1);

    // Every third slot has a gap at its beginning.
    let mut missing_shreds = vec![];
    for slot in 0..num_slots {
        let mut shreds_for_slot: Vec<_> = shreds.drain(..shreds_per_slot).collect();
        if slot % 3 == 0 {
            let shred0 = shreds_for_slot.remove(0);
            missing_shreds.push(shred0);
        }
        blockstore.insert_shreds(shreds_for_slot, NO_RECOVERY, false, false, NOW);
    }
    for i in 0..num_slots {
        let s = blockstore.meta(i).unwrap();
        if i != num_slots - 1 {
            assert_eq!(s.next_slots, vec![i + 1]);
        } else {
            assert!(s.next_slots.is_empty());
        }
        if i == 0 {
            assert_eq!(s.parent_slot, Some(0));
        } else {
            assert_eq!(s.parent_slot, Some(i - 1));
        }
        assert_eq!(s.last_index, Some(shreds_per_slot as u64 - 1));
        if i != 0 {
            assert!(!s.is_connected);
        } else {
            assert!(s.is_connected);
        }
    }
    // Finishing every third slot connects the slots up to three further.
    for slot_index in 0..num_slots {
        if slot_index % 3 == 0 {
            let shred = missing_shreds.remove(0);
            blockstore.insert_shreds(vec![shred], NO_RECOVERY, false, false, NOW);
            for i in 0..num_slots {
                let s = blockstore.meta(i).unwrap();
                if i != num_slots - 1 {
                    assert_eq!(s.next_slots, vec![i + 1]);
                } else {
                    assert!(s.next_slots.is_empty());
                }
                if i <= slot_index + 3 {
                    assert!(s.is_connected);
                } else {
                    assert!(!s.is_connected);
                }
                if i == 0 {
                    assert_eq!(s.parent_slot, Some(0));
                } else {
                    assert_eq!(s.parent_slot, Some(i - 1));
                }
                assert_eq!(s.last_index, Some(shreds_per_slot as u64 - 1));
            }
        }
    }
}

fn pairs(column: &Column<u64, Vec<u64>>) -> Vec<(u64, Vec<u64>)> {
    (0..column.len()).map(|i| (column.key_at(i), column.value_at(i).clone())).collect()
}

#[test]
fn test_get_slots_since() {
    let mut blockstore = open();
    assert!(pairs(&blockstore.get_slots_since(&vec![0])).is_empty());

    blockstore.put_meta(0, SlotMeta::new(0, Some(0)));
    assert_eq!(pairs(&blockstore.get_slots_since(&vec![0])), vec![(0, vec![])]);

    let mut meta0 = SlotMeta::new(0, Some(0));
    meta0.next_slots = vec![1, 2];
    blockstore.put_meta(0, meta0);
    let expected = vec![(0, vec![1, 2])];
    assert_eq!(pairs(&blockstore.get_slots_since(&vec![0])), expected);
    assert_eq!(pairs(&blockstore.get_slots_since(&vec![0, 1])), expected);

    let mut meta3 = SlotMeta::new(3, Some(1));
    meta3.next_slots = vec![10, 5];
    blockstore.put_meta(3, meta3);
    let expected = vec![(0, vec![1, 2]), (3, vec![10, 5])];
    assert_eq!(pairs(&blockstore.get_slots_since(&vec![0, 1, 3])), expected);
}

#[test]
fn test_orphans() {
    let mut blockstore = open();
    let entries_per_slot = 1;
    let (mut shreds, _) = make_many_slot_entries(0, 3, entries_per_slot).unwrap();
    let shreds_per_slot = shreds.len() / 3;

    // Slot 2 chains to slot 1, which is the orphan.
    let shreds_for_slot = shreds.drain((shreds_per_slot * 2)..).collect();
    blockstore.insert_shreds(shreds_for_slot, NO_RECOVERY, false, false, NOW);
    assert!(is_orphan(&blockstore.meta(1).unwrap()));
    assert_eq!(blockstore.orphans_iterator(0), vec![1]);
    assert_eq!(blockstore.orphan(1), Some(true));

    // Slot 1 chains to slot 0, which is now the orphan.
    let shreds_for_slot = shreds.drain(shreds_per_slot..).collect();
    blockstore.insert_shreds(shreds_for_slot, NO_RECOVERY, false, false, NOW);
    assert!(!is_orphan(&blockstore.meta(1).unwrap()));
    assert!(is_orphan(&blockstore.meta(0).unwrap()));
    assert_eq!(blockstore.orphans_iterator(0), vec![0]);

    // Slots that chain to known slots and orphans change nothing.
    let (shred4, _) = slot_shreds(4, 0, 1);
    let (shred5, _) = slot_shreds(5, 1, 1);
    blockstore.insert_shreds(shred4, NO_RECOVERY, false, false, NOW);
    blockstore.insert_shreds(shred5, NO_RECOVERY, false, false, NOW);
    assert_eq!(blockstore.orphans_iterator(0), vec![0]);

    // With the zeroth slot there are no more orphans.
    blockstore.insert_shreds(shreds, NO_RECOVERY, false, false, NOW);
    for i in 0..3 {
        assert!(!is_orphan(&blockstore.meta(i).unwrap()));
    }
    assert_eq!(blockstore.ledger.orphans.len(), 0);
    assert_eq!(blockstore.orphan(1), None);
}

#[test]
fn test_no_insert_but_modify_slot_meta() {
    let (shreds0, _) = slot_shreds(0, 0, 200);
    let mut blockstore = open();
    blockstore.insert_shreds(shreds0[0..5].to_vec(), NO_RECOVERY, false, false, NOW);

    // A shred that is there already is ignored, but slots that chain to its slot are not.
    let (mut shreds2, _) = slot_shreds(2, 0, 200);
    let (mut shreds3, _) = slot_shreds(3, 0, 200);
    shreds2.push(shreds0[1].clone());
    shreds3.insert(0, shreds0[1].clone());
    blockstore.insert_shreds(shreds2, NO_RECOVERY, false, false, NOW);
    assert_eq!(blockstore.meta(0).unwrap().next_slots, vec![2]);
    blockstore.insert_shreds(shreds3, NO_RECOVERY, false, false, NOW);
    assert_eq!(blockstore.meta(0).unwrap().next_slots, vec![2, 3]);
}

#[test]
fn live_slots_follow_forks_and_orphans() {
    let mut blockstore = open();
    for (slot, parent) in [(0, 0), (1, 0), (2, 0), (3, 1), (9, 7)] {
        let (shreds, _) = slot_shreds(slot, parent, 1);
        blockstore.insert_shreds(shreds, NO_RECOVERY, false, false, NOW);
    }
    let live = |root| -> Vec<u64> {
        let found = blockstore.live_slots_iterator(root);
        for (slot, meta) in &found {
            assert_eq!(meta.slot, *slot);
            assert!(blockstore.meta(*slot).unwrap().same(meta));
        }
        found.into_iter().map(|(slot, _)| slot).collect()
    };
    assert_eq!(live(0), vec![0, 2, 1, 3, 7, 9]);
    assert_eq!(live(1), vec![1, 3, 7, 9]);
    // Nothing is known of slot 5.
    assert_eq!(live(5), vec![7, 9]);
}

#[test]
fn a_tree_of_slots_is_filled() {
    let mut blockstore = open();
    let mut root = trees::Tree::new(0u64);
    let mut one = trees::Tree::new(1u64);
    one.push_back(trees::Tree::new(3u64));
    root.push_back(one);
    root.push_back(trees::Tree::new(2u64));
    let hash = Blockhash { w0: 4, w1: 5 };
    assert!(blockstore.add_tree(root, false, true, 2, hash, NOW));
    for (slot, parent, children) in
        [(0, 0, vec![1, 2]), (1, 0, vec![3]), (2, 0, vec![]), (3, 1, vec![])]
    {
        let meta = blockstore.meta(slot).unwrap();
        assert_eq!(meta.parent_slot, Some(parent));
        assert_eq!(meta.next_slots, children);
        assert!(meta.is_full());
        assert!(meta.is_connected);
    }
    // Slot 3 stands for two slots, and every tick ends in the starting hash.
    let entries = blockstore.get_slot_entries(3, 0).unwrap();
    assert_eq!(entries.len(), 4);
    assert!(entries.iter().all(|entry| entry.hash == hash));

    // The root of a tree of orphans is not filled, and an incomplete slot lacks a tick.
    let mut orphan = trees::Tree::new(10u64);
    orphan.push_back(trees::Tree::new(11u64));
    assert!(blockstore.add_tree(orphan, true, false, 3, hash, NOW));
    assert!(is_orphan(&blockstore.meta(10).unwrap()));
    assert!(!blockstore.meta(11).unwrap().is_full());
    assert_eq!(blockstore.get_slot_entries(11, 0).unwrap().len(), 2);
}

#[test]
fn nodes_that_cannot_follow_stop_the_filling() {
    let hash = Blockhash { w0: 3, w1: 4 };
    let mut blockstore = open();
    let nodes = vec![(0, None), (1, Some(0)), (0, Some(1)), (9, Some(10)), (11, Some(1))];
    assert!(!blockstore.add_nodes(&nodes, false, true, 2, hash, NOW));
    // Slot 0 is there by the time it comes with a parent above it, so it is passed over.
    assert!(blockstore.is_full(0));
    assert!(blockstore.is_full(1));
    assert!(blockstore.meta(9).is_none());
    assert!(blockstore.meta(11).is_none());
    // Two ticks for each of the ten slots from slot 1 on.
    assert!(blockstore.add_nodes(&vec![(11, Some(1))], false, true, 2, hash, NOW));
    assert_eq!(blockstore.get_slot_entries(11, 0).unwrap().len(), 20);
    assert!(!blockstore.add_nodes(&vec![(70_000, Some(1))], false, true, 2, hash, NOW));
    assert!(!blockstore.add_nodes(&vec![(13, Some(11))], false, true, u64::MAX, hash, NOW));
}
