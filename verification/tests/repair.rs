use blockstore::batch::RecoveredShred;
use blockstore::blockstore::Blockstore;
use blockstore::fixtures::{create_ticks, entries_to_test_shreds, max_ticks_per_n_shreds};
use blockstore::ledger::Ledger;
use blockstore::shred::Shred;
use blockstore::types::Blockhash;

const NOW: u64 = 1_000_000;
const NO_RECOVERY: Option<fn(Vec<Vec<Shred>>) -> Vec<RecoveredShred>> = None;

fn open() -> Blockstore {
    Blockstore::open(Ledger::new(), NOW)
}

fn missing(blockstore: &Blockstore, start: u64, end: u64, max: usize) -> Vec<u64> {
    blockstore.find_missing_data_indexes(0, 0, start, end, max, NOW)
}

#[test]
fn test_find_missing_data_indexes() {
    let slot = 0;
    let mut blockstore = open();
    let gap: u64 = 10;
    assert!(gap > 3);
    let num_entries = max_ticks_per_n_shreds(1) + 1;
    let entries = create_ticks(num_entries, Blockhash::default());
    let mut shreds = entries_to_test_shreds(&entries, slot, 0, true, 0).unwrap();
    let num_shreds = shreds.len();
    assert!(num_shreds > 1);
    for (i, s) in shreds.iter_mut().enumerate() {
        s.set_index(i as u32 * gap as u32);
        s.set_slot(slot);
    }
    blockstore.insert_shreds(shreds, NO_RECOVERY, false, false, NOW);

    // Shreds 0 and `gap` are there.
    let expected: Vec<u64> = (1..gap).collect();
    assert_eq!(missing(&blockstore, 0, gap, gap as usize), expected);
    assert_eq!(missing(&blockstore, 1, gap, (gap - 1) as usize), expected);
    assert_eq!(
        missing(&blockstore, 0, gap - 1, (gap - 1) as usize),
        &expected[..expected.len() - 1]
    );
    assert_eq!(missing(&blockstore, gap - 2, gap, gap as usize), vec![gap - 2, gap - 1]);
    assert_eq!(missing(&blockstore, gap - 2, gap, 1), vec![gap - 2]);
    assert_eq!(missing(&blockstore, 0, gap, 1), vec![1]);

    // A range around the shred at `gap`.
    let mut expected: Vec<u64> = (1..gap).collect();
    expected.push(gap + 1);
    assert_eq!(missing(&blockstore, 0, gap + 2, (gap + 2) as usize), expected);
    assert_eq!(
        missing(&blockstore, 0, gap + 2, (gap - 1) as usize),
        &expected[..expected.len() - 1]
    );
    for i in 0..num_shreds as u64 {
        for j in 0..i {
            let expected: Vec<u64> =
                (j..i).flat_map(|k| k * gap + 1..(k + 1) * gap).collect();
            assert_eq!(
                missing(&blockstore, j * gap, i * gap, ((i - j) * gap) as usize),
                expected
            );
        }
    }
}

#[test]
fn test_find_missing_data_indexes_timeout() {
    let slot = 0;
    let mut blockstore = open();
    let gap: u64 = 10;
    let shreds: Vec<_> = (0..64u64)
        .map(|i| {
            let index = (i * gap) as u32;
            Shred::new_from_data(slot, index, 0, &vec![], false, false, i as u8, 0, index)
        })
        .collect();
    blockstore.insert_shreds(shreds, NO_RECOVERY, false, false, NOW);

    let empty: Vec<u64> = vec![];
    assert_eq!(blockstore.find_missing_data_indexes(slot, NOW, 0, 50, 1, NOW), empty);
    let expected: Vec<_> = (1..=9).collect();
    assert_eq!(blockstore.find_missing_data_indexes(slot, NOW - 400, 0, 50, 9, NOW), expected);

    // 106 ms are 16 ticks: the shred at 0 is overdue, the one at 10 is not.
    assert_eq!(blockstore.find_missing_data_indexes(slot, NOW - 106, 0, 50, 9, NOW), empty);
    assert_eq!(
        blockstore.find_missing_data_indexes(slot, NOW - 107, 0, 12, 99, NOW),
        vec![1, 2, 3, 4, 5, 6, 7, 8, 9]
    );
}

#[test]
fn test_find_missing_data_indexes_sanity() {
    let slot = 0;
    let mut blockstore = open();
    let empty: Vec<u64> = vec![];
    assert_eq!(missing(&blockstore, 0, 0, 1), empty);
    assert_eq!(missing(&blockstore, 5, 5, 1), empty);
    assert_eq!(missing(&blockstore, 4, 3, 1), empty);
    assert_eq!(missing(&blockstore, 1, 2, 0), empty);

    let entries = create_ticks(100, Blockhash::default());
    let mut shreds = entries_to_test_shreds(&entries, slot, 0, true, 0).unwrap();
    assert!(shreds.len() > 2);
    shreds.drain(2..);
    const ONE: u64 = 1;
    const OTHER: u64 = 4;
    shreds[0].set_index(ONE as u32);
    shreds[1].set_index(OTHER as u32);
    blockstore.insert_shreds(shreds, NO_RECOVERY, false, false, NOW);

    const STARTS: u64 = OTHER * 2;
    const END: u64 = OTHER * 3;
    const MAX: usize = 10;
    for start in 0..STARTS {
        let result = missing(&blockstore, start, END, MAX);
        let expected: Vec<u64> = (start..END).filter(|i| *i != ONE && *i != OTHER).collect();
        assert_eq!(result, expected);
    }
}

#[test]
fn test_no_missing_shred_indexes() {
    let slot = 0;
    let mut blockstore = open();
    let num_entries = 10;
    let entries = create_ticks(num_entries, Blockhash::default());
    let shreds = entries_to_test_shreds(&entries, slot, 0, true, 0).unwrap();
    let num_shreds = shreds.len();
    blockstore.insert_shreds(shreds, NO_RECOVERY, false, false, NOW);
    let empty: Vec<u64> = vec![];
    for i in 0..num_shreds as u64 {
        for j in 0..i {
            assert_eq!(missing(&blockstore, j, i, (i - j) as usize), empty);
        }
    }
}
