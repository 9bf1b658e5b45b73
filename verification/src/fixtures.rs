//! Ticks and shreds made up for trials: slots full of ticks, chains of such slots, and trees
//! of them.

use vstd::prelude::*;
use crate::batch::{batch_allowed, batch_start, lemma_insertable_allowed, Progress};
use crate::blockstore::BlockstoreView;
use crate::entries::decoded_entries;
use crate::insert::{all_code_parses, unrepaired};
use crate::insertion::insertable;
use crate::metrics::BlockstoreInsertionMetrics;
use crate::records::{
    entry_views, transaction_views, Entry, EntryView, VersionedTransaction,
    VersionedTransactionView,
};
use crate::shred::{shred_views, Shred, ShredView, SIZE_OF_DATA_SHRED_PAYLOAD};
use crate::shredder::{chunk, num_data_shreds, too_long, Shredder};
use crate::types::{zero_hash, Blockhash, Slot};

verus! {

/// The encoded length of a tick.
pub const TICK_SIZE: u64 = 48;

/// The encoded length of a number of entries.
pub const COUNT_SIZE: u64 = 8;

/// `n` ticks that end in `hash`.
pub open spec fn ticks(n: nat, hash: Blockhash) -> Seq<EntryView> {
    Seq::new(n, |i: int| EntryView { num_hashes: 0, hash, transactions: Seq::empty() })
}

/// Makes `num_ticks` ticks without hashes in between, so that each ends in `hash`.
pub fn create_ticks(num_ticks: u64, hash: Blockhash) -> (result: Vec<Entry>)
    ensures
        entry_views(result@) == ticks(num_ticks as nat, hash),
        result@.len() == num_ticks,
{
    let mut result: Vec<Entry> = Vec::new();
    let mut i: u64 = 0;
    assert(entry_views(result@) =~= ticks(0, hash));
    while i < num_ticks
        invariant
            0 <= i <= num_ticks,
            result@.len() == i,
            entry_views(result@) == ticks(i as nat, hash),
        decreases num_ticks - i,
    {
        let transactions: Vec<VersionedTransaction> = Vec::new();
        let entry = Entry { num_hashes: 0, hash, transactions };
        assert(transaction_views(transactions@) =~= Seq::<VersionedTransactionView>::empty());
        let ghost so_far = entry_views(result@);
        result.push(entry);
        assert(entry_views(result@) =~= so_far.push(entry@));
        assert(entry_views(result@) =~= ticks((i + 1) as nat, hash));
        i += 1;
    }
    result
}

/// How many ticks fit into `num_shreds` shreds.
pub open spec fn ticks_in_shreds(num_shreds: u64) -> int {
    (SIZE_OF_DATA_SHRED_PAYLOAD * num_shreds - COUNT_SIZE) / TICK_SIZE as int
}

/// How many ticks fit into `num_shreds` shreds.
pub fn max_ticks_per_n_shreds(num_shreds: u64) -> (result: u64)
    requires
        num_shreds > 0,
        SIZE_OF_DATA_SHRED_PAYLOAD * num_shreds <= u64::MAX,
    ensures
        result == ticks_in_shreds(num_shreds),
{
    (SIZE_OF_DATA_SHRED_PAYLOAD as u64 * num_shreds - COUNT_SIZE) / TICK_SIZE
}

/// The parent is not above the slot, and not too far below it.
pub open spec fn can_follow(slot: Slot, parent_slot: Slot) -> bool {
    parent_slot <= slot && slot - parent_slot <= u16::MAX
}

/// The data shreds of entries of a slot.
pub open spec fn test_shreds(
    entries: Seq<EntryView>,
    slot: Slot,
    parent_slot: Slot,
    is_full_slot: bool,
    version: u16,
) -> Option<Seq<ShredView>> {
    (Shredder { slot, parent_slot, reference_tick: 0, version }).shredded(
        entries,
        is_full_slot,
        0,
    )
}

/// Every shred of the sequence is a data shred that can be stored at any time.
pub open spec fn all_storable(shreds: Seq<ShredView>) -> bool {
    forall|i: int|
        0 <= i < shreds.len() ==> (#[trigger] shreds[i]).is_data() && insertable(
            shreds[i],
            false,
            0,
        )
}

pub proof fn lemma_shreds_storable(shredder: Shredder, bytes: Seq<u8>, is_last: bool, start: u32)
    requires
        shredder.valid(),
        shredder.reference_tick == 0,
        start + num_data_shreds(bytes.len() as int) <= u32::MAX,
    ensures
        all_storable(shredder.shreds_of(bytes, is_last, start)),
{
    let shreds = shredder.shreds_of(bytes, is_last, start);
    let n = num_data_shreds(bytes.len() as int);
    assert forall|i: int| 0 <= i < shreds.len() implies (#[trigger] shreds[i]).is_data()
        && insertable(shreds[i], false, 0) by {
        assert(shreds[i] == shredder.shred_at(bytes, is_last, start, n, i));
        assert(i * SIZE_OF_DATA_SHRED_PAYLOAD < bytes.len());
        assert(chunk(bytes, i).len() <= SIZE_OF_DATA_SHRED_PAYLOAD);
        assert(0u8 & 0x3fu8 == 0u8 && (0u8 | 0x40u8) & 0x3fu8 == 0u8 && (0u8 | 0x80u8) & 0x3fu8
            == 0u8 && ((0u8 | 0x40u8) | 0x80u8) & 0x3fu8 == 0u8) by (bit_vector);
        assert(shreds[i].reference_tick() == 0);
    }
}

/// A sequence of storable shreds can be inserted into any store, and holds no coding shreds.
pub proof fn lemma_storable_allowed(store: BlockstoreView, shreds: Seq<ShredView>, now: u64)
    requires
        all_storable(shreds),
    ensures
        batch_allowed(
            store,
            shreds,
            unrepaired(shreds.len()),
            false,
            now,
            BlockstoreInsertionMetrics::zero(),
        ),
        all_code_parses(shreds),
{
    assert forall|i: int| 0 <= i < shreds.len() implies insertable(
        #[trigger] shreds[i],
        false,
        now,
    ) by {
        assert(shreds[i].is_data() && insertable(shreds[i], false, 0));
    }
    lemma_insertable_allowed(
        Progress {
            store,
            state: batch_start(BlockstoreInsertionMetrics::zero(), shreds.len() as usize),
        },
        shreds,
        unrepaired(shreds.len()),
        false,
        now,
    );
}

/// Cuts entries of a slot into data shreds. `None` where there are too many.
pub fn entries_to_test_shreds(
    entries: &Vec<Entry>,
    slot: Slot,
    parent_slot: Slot,
    is_full_slot: bool,
    version: u16,
) -> (result: Option<Vec<Shred>>)
    requires
        can_follow(slot, parent_slot),
    ensures
        (match result {
            Some(shreds) => Some(shred_views(shreds@)),
            None => None,
        }) == test_shreds(entry_views(entries@), slot, parent_slot, is_full_slot, version),
        result is Some ==> all_storable(shred_views(result->0@)) && result->0@.len() > 0,
        result is Some ==> exists|bytes: Seq<u8>|
            bytes.len() > 0 && decoded_entries(bytes) == Some(entry_views(entries@))
                && shred_views(result->0@) == #[trigger] (Shredder {
                slot,
                parent_slot,
                reference_tick: 0,
                version,
            }).shreds_of(bytes, is_full_slot, 0),
        result is None ==> too_long(entry_views(entries@), 0),
{
    let shredder = Shredder { slot, parent_slot, reference_tick: 0, version };
    let result = shredder.entries_to_data_shreds(entries, is_full_slot, 0);
    proof {
        if result is Some {
            let bytes = choose|bytes: Seq<u8>|
                shred_views(result->0@) == #[trigger] shredder.shreds_of(bytes, is_full_slot, 0)
                    && 0 + num_data_shreds(bytes.len() as int) <= u32::MAX;
            lemma_shreds_storable(shredder, bytes, is_full_slot, 0);
        }
    }
    result
}

/// The shreds of a slot that is full with `num_entries` ticks.
pub open spec fn slot_of_ticks(slot: Slot, parent_slot: Slot, num_entries: u64) -> Option<
    Seq<ShredView>,
> {
    test_shreds(ticks(num_entries as nat, zero_hash()), slot, parent_slot, true, 0)
}

/// Makes a slot that is full with `num_entries` ticks. `None` where they take too many shreds.
pub fn make_slot_entries(slot: Slot, parent_slot: Slot, num_entries: u64) -> (result: Option<
    (Vec<Shred>, Vec<Entry>),
>)
    requires
        can_follow(slot, parent_slot),
    ensures
        (match result {
            Some(made) => Some(shred_views(made.0@)),
            None => None,
        }) == slot_of_ticks(slot, parent_slot, num_entries),
        result is Some ==> entry_views((result->0).1@) == ticks(num_entries as nat, zero_hash())
            && all_storable(shred_views((result->0).0@)) && (result->0).0@.len() > 0,
        result is None ==> too_long(ticks(num_entries as nat, zero_hash()), 0),
{
    let entries = create_ticks(num_entries, Blockhash { w0: 0, w1: 0 });
    match entries_to_test_shreds(&entries, slot, parent_slot, true, 0) {
        Some(shreds) => Some((shreds, entries)),
        None => None,
    }
}

/// The parent of a slot in an unbroken chain.
pub open spec fn previous(slot: Slot) -> Slot {
    if slot == 0 {
        0
    } else {
        (slot - 1) as u64
    }
}

/// The shreds of an unbroken chain of `n` slots, each full with ticks.
pub open spec fn chain_of_ticks(start_slot: Slot, n: nat, entries_per_slot: u64) -> Option<
    Seq<ShredView>,
>
    decreases n,
{
    if n == 0 {
        Some(Seq::empty())
    } else {
        let slot = (start_slot + n - 1) as u64;
        match chain_of_ticks(start_slot, (n - 1) as nat, entries_per_slot) {
            None => None,
            Some(earlier) => match slot_of_ticks(slot, previous(slot), entries_per_slot) {
                None => None,
                Some(shreds) => Some(earlier + shreds),
            },
        }
    }
}

proof fn lemma_chain_none(start_slot: Slot, n: nat, m: nat, entries_per_slot: u64)
    requires
        n <= m,
        chain_of_ticks(start_slot, n, entries_per_slot) is None,
    ensures
        chain_of_ticks(start_slot, m, entries_per_slot) is None,
    decreases m,
{
    if n < m {
        lemma_chain_none(start_slot, n, (m - 1) as nat, entries_per_slot);
    }
}

fn append_shreds(to: &mut Vec<Shred>, from: Vec<Shred>)
    requires
        all_storable(shred_views(old(to)@)),
        all_storable(shred_views(from@)),
    ensures
        shred_views(final(to)@) == shred_views(old(to)@) + shred_views(from@),
        all_storable(shred_views(final(to)@)),
        final(to)@.len() == old(to)@.len() + from@.len(),
{
    let ghost a = shred_views(to@);
    let ghost b = shred_views(from@);
    let mut other = from;
    to.append(&mut other);
    proof {
        let c = shred_views(to@);
        assert(c =~= a + b);
        assert forall|i: int| 0 <= i < c.len() implies (#[trigger] c[i]).is_data() && insertable(
            c[i],
            false,
            0,
        ) by {
            if i < a.len() {
                assert(a[i].is_data() && insertable(a[i], false, 0));
            } else {
                assert(b[i - a.len()].is_data() && insertable(b[i - a.len()], false, 0));
            }
        }
    }
}

/// Makes an unbroken chain of slots, each full with `entries_per_slot` ticks.
pub fn make_many_slot_entries(start_slot: Slot, num_slots: u64, entries_per_slot: u64) -> (result:
    Option<(Vec<Shred>, Vec<Entry>)>)
    requires
        start_slot + num_slots <= u64::MAX,
        num_slots * entries_per_slot <= u64::MAX,
    ensures
        (match result {
            Some(made) => Some(shred_views(made.0@)),
            None => None,
        }) == chain_of_ticks(start_slot, num_slots as nat, entries_per_slot),
        result is Some ==> entry_views((result->0).1@) == ticks(
            (num_slots * entries_per_slot) as nat,
            zero_hash(),
        ) && all_storable(shred_views((result->0).0@)) && (result->0).0@.len() >= num_slots,
        result is None ==> too_long(ticks(entries_per_slot as nat, zero_hash()), 0),
{
    let mut shreds: Vec<Shred> = Vec::new();
    let mut entries: Vec<Entry> = Vec::new();
    let mut n: u64 = 0;
    assert(shred_views(shreds@) =~= Seq::empty());
    assert(entry_views(entries@) =~= ticks(0, zero_hash()));
    assert((0 * entries_per_slot) as nat == 0);
    while n < num_slots
        invariant
            0 <= n <= num_slots,
            start_slot + num_slots <= u64::MAX,
            chain_of_ticks(start_slot, n as nat, entries_per_slot) == Some(shred_views(shreds@)),
            entry_views(entries@) == ticks((n * entries_per_slot) as nat, zero_hash()),
            all_storable(shred_views(shreds@)),
            shreds@.len() >= n,
        decreases num_slots - n,
    {
        let slot: u64 = start_slot + n;
        let parent_slot: u64 = if slot == 0 {
            0
        } else {
            slot - 1
        };
        match make_slot_entries(slot, parent_slot, entries_per_slot) {
            None => {
                proof {
                    lemma_chain_none(
                        start_slot,
                        (n + 1) as nat,
                        num_slots as nat,
                        entries_per_slot,
                    );
                }
                return None;
            },
            Some((slot_shreds, slot_entries)) => {
                let ghost so_far = entry_views(entries@);
                append_shreds(&mut shreds, slot_shreds);
                let ghost added = entry_views(slot_entries@);
                let mut other = slot_entries;
                entries.append(&mut other);
                proof {
                    assert(entry_views(entries@) =~= so_far + added);
                    assert((n + 1) * entries_per_slot == n * entries_per_slot + entries_per_slot)
                        by (nonlinear_arith);
                    assert(so_far + added =~= ticks(
                        ((n + 1) * entries_per_slot) as nat,
                        zero_hash(),
                    ));
                }
            },
        }
        n += 1;
    }
    Some((shreds, entries))
}

/// Makes an unbroken chain of slots, each full with as many ticks as fit into
/// `num_shreds_per_slot` shreds.
pub fn make_many_slot_shreds(start_slot: u64, num_slots: u64, num_shreds_per_slot: u64) -> (result:
    Option<(Vec<Shred>, Vec<Entry>)>)
    requires
        num_shreds_per_slot > 0,
        SIZE_OF_DATA_SHRED_PAYLOAD * num_shreds_per_slot <= u64::MAX,
        start_slot + num_slots <= u64::MAX,
        num_slots * ticks_in_shreds(num_shreds_per_slot) <= u64::MAX,
    ensures
        (match result {
            Some(made) => Some(shred_views(made.0@)),
            None => None,
        }) == chain_of_ticks(
            start_slot,
            num_slots as nat,
            ticks_in_shreds(num_shreds_per_slot) as u64,
        ),
        result is Some ==> entry_views((result->0).1@) == ticks(
            (num_slots * ticks_in_shreds(num_shreds_per_slot)) as nat,
            zero_hash(),
        ) && all_storable(shred_views((result->0).0@)) && (result->0).0@.len() >= num_slots,
        result is None ==> too_long(
            ticks(ticks_in_shreds(num_shreds_per_slot) as nat, zero_hash()),
            0,
        ),
{
    let num_entries: u64 = max_ticks_per_n_shreds(num_shreds_per_slot);
    make_many_slot_entries(start_slot, num_slots, num_entries)
}

/// The parent of the `i`-th slot of a chain: the slot before it in the chain. The first slot,
/// and slot 0, have slot 0.
pub open spec fn chain_parent(chain: Seq<u64>, i: int) -> Slot {
    if chain[i] == 0 || i == 0 {
        0
    } else {
        chain[i - 1]
    }
}

/// Makes slots, each full with `entries_per_slot` ticks, of which each has the one before it in
/// `chain` as its parent.
pub fn make_chaining_slot_entries(chain: &Vec<u64>, entries_per_slot: u64) -> (result: Option<
    Vec<(Vec<Shred>, Vec<Entry>)>,
>)
    requires
        forall|i: int|
            0 <= i < chain@.len() ==> can_follow(#[trigger] chain@[i], chain_parent(chain@, i)),
    ensures
        result is Some <==> forall|i: int|
            0 <= i < chain@.len() ==> slot_of_ticks(
                #[trigger] chain@[i],
                chain_parent(chain@, i),
                entries_per_slot,
            ) is Some,
        result is Some ==> result->0@.len() == chain@.len() && forall|i: int|
            0 <= i < chain@.len() ==> Some(shred_views((#[trigger] result->0@[i]).0@))
                == slot_of_ticks(chain@[i], chain_parent(chain@, i), entries_per_slot)
                && entry_views(result->0@[i].1@) == ticks(entries_per_slot as nat, zero_hash())
                && all_storable(shred_views(result->0@[i].0@)) && result->0@[i].0@.len() > 0,
        result is None ==> too_long(ticks(entries_per_slot as nat, zero_hash()), 0),
{
    let mut result: Vec<(Vec<Shred>, Vec<Entry>)> = Vec::new();
    let mut i: usize = 0;
    while i < chain.len()
        invariant
            0 <= i <= chain@.len(),
            result@.len() == i,
            forall|j: int|
                0 <= j < chain@.len() ==> can_follow(
                    #[trigger] chain@[j],
                    chain_parent(chain@, j),
                ),
            forall|j: int|
                0 <= j < i ==> Some(shred_views((#[trigger] result@[j]).0@)) == slot_of_ticks(
                    chain@[j],
                    chain_parent(chain@, j),
                    entries_per_slot,
                ) && entry_views(result@[j].1@) == ticks(entries_per_slot as nat, zero_hash())
                    && all_storable(shred_views(result@[j].0@)) && result@[j].0@.len() > 0,
        decreases chain@.len() - i,
    {
        let slot: u64 = chain[i];
        let parent_slot: u64 = if slot == 0 || i == 0 {
            0
        } else {
            chain[i - 1]
        };
        assert(can_follow(chain@[i as int], chain_parent(chain@, i as int)));
        match make_slot_entries(slot, parent_slot, entries_per_slot) {
            None => {
                assert(slot_of_ticks(
                    chain@[i as int],
                    chain_parent(chain@, i as int),
                    entries_per_slot,
                ) is None);
                return None;
            },
            Some(made) => {
                result.push(made);
            },
        }
        i += 1;
    }
    proof {
        assert forall|j: int| 0 <= j < chain@.len() implies slot_of_ticks(
            #[trigger] chain@[j],
            chain_parent(chain@, j),
            entries_per_slot,
        ) is Some by {
            assert(Some(shred_views(result@[j].0@)) == slot_of_ticks(
                chain@[j],
                chain_parent(chain@, j),
                entries_per_slot,
            ));
        }
    }
    Some(result)
}

} // verus!
