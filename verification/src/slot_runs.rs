//! The runs of entries of a slot, and that a slot gives back those whose shreds it holds.

use vstd::prelude::*;
use crate::blockstore::BlockstoreView;
use crate::column::SlotIndex;
use crate::consistency::{consistent, ends_marked, ends_run, faithful, meta_agrees, stored_in};
use crate::entries::decoded_entries;
use crate::ledger::LedgerView;
use crate::records::{BlockstoreError, EntryView, InvalidShredData};
use crate::shred::{
    data_flags, ShredType, ShredView, SHRED_PAYLOAD_SIZE, SIZE_OF_DATA_SHRED_PAYLOAD,
};
use crate::shredder::{
    chunk, law_block_reads_back, lemma_flags, lemma_shred_reads_back, num_data_shreds, stores_all,
    stores_at, Shredder,
};
use crate::slot_entries::{
    cleaned_up, data_ranges, dead, ranges_entries, slot_entries, slot_entries_info, slot_ranges,
};
use crate::slot_update::run_start;
use crate::types::Slot;

verus! {

/// A run of entries of a slot: the entries, their encoding, and how it is cut into shreds.
pub struct EntryRun {
    pub shredder: Shredder,
    pub bytes: Seq<u8>,
    pub entries: Seq<EntryView>,
    pub is_last_in_slot: bool,
}

/// How many shreds some runs take.
pub open spec fn run_shreds_len(runs: Seq<EntryRun>) -> int
    decreases runs.len(),
{
    if runs.len() == 0 {
        0
    } else {
        run_shreds_len(runs.drop_last()) + num_data_shreds(runs.last().bytes.len() as int)
    }
}

/// The shreds of some runs, one run after the other, from index 0 on.
pub open spec fn run_shreds(runs: Seq<EntryRun>) -> Seq<ShredView>
    decreases runs.len(),
{
    if runs.len() == 0 {
        Seq::empty()
    } else {
        run_shreds(runs.drop_last()) + runs.last().shredder.shreds_of(
            runs.last().bytes,
            runs.last().is_last_in_slot,
            run_shreds_len(runs.drop_last()) as u32,
        )
    }
}

/// The entries of some runs, one run after the other.
pub open spec fn run_entries(runs: Seq<EntryRun>) -> Seq<EntryView>
    decreases runs.len(),
{
    if runs.len() == 0 {
        Seq::empty()
    } else {
        run_entries(runs.drop_last()) + runs.last().entries
    }
}

/// The runs are those of one slot: each is the encoding of its entries, none is empty, only the
/// last may end the slot, and there are indexes for all of their shreds.
pub open spec fn runs_of(slot: Slot, parent: Slot, runs: Seq<EntryRun>) -> bool {
    &&& forall|j: int|
        0 <= j < runs.len() ==> {
            let run = #[trigger] runs[j];
            &&& run.shredder.valid()
            &&& run.shredder.slot == slot
            &&& run.shredder.parent_slot == parent
            &&& run.bytes.len() > 0
            &&& decoded_entries(run.bytes) == Some(run.entries)
            &&& run.is_last_in_slot ==> j == runs.len() - 1
        }
    &&& run_shreds_len(runs) < u32::MAX
    &&& parent < slot || slot == 0
}

/// The shreds are those of one slot, in the order of their indexes: each is well-formed, and
/// only the last may end the slot.
pub open spec fn shreds_of_slot(slot: Slot, parent: Slot, all: Seq<ShredView>) -> bool {
    &&& all.len() < u32::MAX
    &&& forall|i: int|
        0 <= i < all.len() ==> {
            let shred = #[trigger] all[i];
            &&& shred.is_data()
            &&& shred.slot() == slot
            &&& shred.index() == i
            &&& shred.parent() == Some(parent)
            &&& shred.last_in_slot() ==> i == all.len() - 1
            &&& 0 < shred.data_header.size <= shred.payload.len()
            &&& shred.payload.len() <= SHRED_PAYLOAD_SIZE
            &&& faithful(shred)
        }
}

/// The ledger stores no data shreds for a slot but some of `all`, each at its index.
pub open spec fn holds_some(ledger: LedgerView, slot: Slot, all: Seq<ShredView>) -> bool {
    forall|i: u64| #[trigger]
        ledger.data_shreds.contains_key(SlotIndex { slot, index: i }) ==> i < all.len()
            && ledger.data_shreds[SlotIndex { slot, index: i }] == all[i as int].stored()
}

/// A single run.
pub proof fn lemma_single_run(run: EntryRun)
    ensures
        run_shreds(seq![run]) == run.shredder.shreds_of(run.bytes, run.is_last_in_slot, 0),
        run_shreds_len(seq![run]) == num_data_shreds(run.bytes.len() as int),
        run_entries(seq![run]) == run.entries,
{
    let none = seq![run].drop_last();
    assert(none =~= Seq::empty());
    assert(run_shreds_len(none) == 0);
    assert(run_shreds(none) =~= Seq::empty());
    assert(run_entries(none) =~= Seq::empty());
    assert(run_shreds(seq![run]) =~= run.shredder.shreds_of(run.bytes, run.is_last_in_slot, 0));
    assert(run_entries(seq![run]) =~= run.entries);
}

pub proof fn lemma_run_lens(runs: Seq<EntryRun>, j: int)
    requires
        0 <= j <= runs.len(),
    ensures
        0 <= run_shreds_len(runs.take(j)) <= run_shreds_len(runs),
        run_shreds(runs).len() == run_shreds_len(runs),
        j < runs.len() ==> run_shreds_len(runs.take(j + 1)) == run_shreds_len(runs.take(j))
            + num_data_shreds(runs[j].bytes.len() as int),
    decreases runs.len(),
{
    assert(runs.take(runs.len() as int) =~= runs);
    if j < runs.len() {
        assert(runs.take(j + 1).drop_last() =~= runs.take(j));
        assert(runs.drop_last().take(j) =~= runs.take(j));
        lemma_run_lens(runs.drop_last(), j);
    } else if runs.len() > 0 {
        lemma_run_lens(runs.drop_last(), j - 1);
    }
}

/// The shred at position `x` of run `j` is where the runs before it end, and `x` further.
proof fn lemma_run_shred(runs: Seq<EntryRun>, j: int, x: int)
    requires
        0 <= j < runs.len(),
        0 <= x < num_data_shreds(runs[j].bytes.len() as int),
    ensures
        run_shreds_len(runs.take(j)) + x < run_shreds(runs).len(),
        run_shreds(runs)[run_shreds_len(runs.take(j)) + x] == runs[j].shredder.shreds_of(
            runs[j].bytes,
            runs[j].is_last_in_slot,
            run_shreds_len(runs.take(j)) as u32,
        )[x],
    decreases runs.len(),
{
    let before = runs.drop_last();
    lemma_run_lens(runs, j);
    lemma_run_lens(before, before.len() as int);
    assert(runs.take(runs.len() - 1) =~= before);
    if j < before.len() {
        lemma_run_shred(before, j, x);
        assert(before.take(j) =~= runs.take(j));
    }
}

/// The run that holds the shred at index `i`.
proof fn lemma_run_at(runs: Seq<EntryRun>, i: int) -> (j: int)
    requires
        0 <= i < run_shreds_len(runs),
    ensures
        0 <= j < runs.len(),
        run_shreds_len(runs.take(j)) <= i < run_shreds_len(runs.take(j + 1)),
    decreases runs.len(),
{
    let before = runs.drop_last();
    assert(runs.take(runs.len() - 1) =~= before);
    assert(runs.take(runs.len() as int) =~= runs);
    if i < run_shreds_len(before) {
        let j = lemma_run_at(before, i);
        assert(before.take(j) =~= runs.take(j));
        assert(before.take(j + 1) =~= runs.take(j + 1));
        j
    } else {
        runs.len() - 1
    }
}

/// The headers of the shred at position `x` of those that bytes are cut into.
proof fn lemma_cut_headers(
    shredder: Shredder,
    bytes: Seq<u8>,
    is_last_in_slot: bool,
    start: u32,
    x: int,
)
    requires
        shredder.valid(),
        start + num_data_shreds(bytes.len() as int) <= u32::MAX,
        0 <= x < num_data_shreds(bytes.len() as int),
    ensures
        ({
            let n = num_data_shreds(bytes.len() as int);
            let shred = shredder.shreds_of(bytes, is_last_in_slot, start)[x];
            &&& shred.common_header.shred_type == ShredType::Data
            &&& shred.common_header.slot == shredder.slot
            &&& shred.common_header.index == start + x
            &&& shred.data_header.parent_offset == shredder.slot - shredder.parent_slot
            &&& shred.data_header.flags == data_flags(
                shredder.reference_tick,
                x == n - 1,
                x == n - 1 && is_last_in_slot,
            )
            &&& 0 < shred.data_header.size
            &&& shred.payload.len() == SHRED_PAYLOAD_SIZE
        }),
{
    let n = num_data_shreds(bytes.len() as int);
    let shred = shredder.shred_at(bytes, is_last_in_slot, start, n, x);
    assert(shredder.shreds_of(bytes, is_last_in_slot, start)[x] == shred);
    assert(chunk(bytes, x).len() <= SIZE_OF_DATA_SHRED_PAYLOAD);
}

/// The shred at position `x` of those that bytes are cut into.
#[verifier::spinoff_prover]
proof fn lemma_cut_shred(
    shredder: Shredder,
    bytes: Seq<u8>,
    is_last_in_slot: bool,
    start: u32,
    x: int,
)
    requires
        shredder.valid(),
        shredder.parent_slot < shredder.slot || shredder.slot == 0,
        start + num_data_shreds(bytes.len() as int) <= u32::MAX,
        0 <= x < num_data_shreds(bytes.len() as int),
    ensures
        ({
            let n = num_data_shreds(bytes.len() as int);
            let shred = shredder.shreds_of(bytes, is_last_in_slot, start)[x];
            &&& shred.is_data()
            &&& shred.slot() == shredder.slot
            &&& shred.index() == start + x
            &&& shred.parent() == Some(shredder.parent_slot)
            &&& shred.last_in_slot() <==> is_last_in_slot && x == n - 1
            &&& 0 < shred.data_header.size <= shred.payload.len()
            &&& shred.payload.len() <= SHRED_PAYLOAD_SIZE
            &&& faithful(shred)
            &&& ends_run(shred.stored()) <==> x == n - 1
        }),
{
    let n = num_data_shreds(bytes.len() as int);
    lemma_cut_headers(shredder, bytes, is_last_in_slot, start, x);
    lemma_shred_reads_back(shredder, bytes, is_last_in_slot, start, x);
    lemma_flags(shredder.reference_tick, x == n - 1, x == n - 1 && is_last_in_slot);
}

/// The shred at index `i` of some runs, and whether it ends one.
proof fn lemma_shred_of_run(slot: Slot, parent: Slot, runs: Seq<EntryRun>, j: int, i: int)
    requires
        runs_of(slot, parent, runs),
        0 <= j < runs.len(),
        run_shreds_len(runs.take(j)) <= i < run_shreds_len(runs.take(j + 1)),
    ensures
        0 <= i < run_shreds(runs).len(),
        ({
            let shred = run_shreds(runs)[i];
            &&& shred.is_data()
            &&& shred.slot() == slot
            &&& shred.index() == i
            &&& shred.parent() == Some(parent)
            &&& shred.last_in_slot() <==> runs[j].is_last_in_slot && i == run_shreds_len(
                runs.take(j + 1),
            ) - 1
            &&& 0 < shred.data_header.size <= shred.payload.len()
            &&& shred.payload.len() <= SHRED_PAYLOAD_SIZE
            &&& faithful(shred)
            &&& ends_run(shred.stored()) <==> i == run_shreds_len(runs.take(j + 1)) - 1
        }),
{
    let run = runs[j];
    let start = run_shreds_len(runs.take(j));
    let x = i - start;
    lemma_run_lens(runs, j);
    lemma_run_lens(runs, j + 1);
    lemma_run_shred(runs, j, x);
    lemma_cut_shred(run.shredder, run.bytes, run.is_last_in_slot, start as u32, x);
}

/// The shreds of the runs of a slot are shreds of that slot.
pub proof fn lemma_run_shreds_of_slot(slot: Slot, parent: Slot, runs: Seq<EntryRun>)
    requires
        runs_of(slot, parent, runs),
    ensures
        shreds_of_slot(slot, parent, run_shreds(runs)),
        run_shreds(runs).len() == run_shreds_len(runs),
        runs.len() > 0 ==> run_shreds(runs).len() > 0,
        runs.len() > 0 ==> (run_shreds(runs).last().last_in_slot()
            <==> runs.last().is_last_in_slot),
{
    let all = run_shreds(runs);
    lemma_run_lens(runs, 0);
    assert forall|i: int| 0 <= i < all.len() implies {
        let shred = #[trigger] all[i];
        &&& shred.is_data()
        &&& shred.slot() == slot
        &&& shred.index() == i
        &&& shred.parent() == Some(parent)
        &&& shred.last_in_slot() ==> i == all.len() - 1
        &&& 0 < shred.data_header.size <= shred.payload.len()
        &&& shred.payload.len() <= SHRED_PAYLOAD_SIZE
        &&& faithful(shred)
    } by {
        let j = lemma_run_at(runs, i);
        lemma_shred_of_run(slot, parent, runs, j, i);
        assert(runs.take(runs.len() as int) =~= runs);
    }
    if runs.len() > 0 {
        let j = runs.len() - 1;
        lemma_run_lens(runs, j);
        assert(runs[j].bytes.len() > 0);
        assert(runs.take(runs.len() as int) =~= runs);
        lemma_shred_of_run(slot, parent, runs, j, run_shreds_len(runs) - 1);
    }
}

/// The runs as ranges of indexes, both ends included.
pub open spec fn run_ranges(runs: Seq<EntryRun>) -> Seq<(u32, u32)> {
    Seq::new(
        runs.len(),
        |j: int|
            (run_shreds_len(runs.take(j)) as u32, (run_shreds_len(runs.take(j + 1)) - 1) as u32),
    )
}

/// Ends are noted, below `n`, exactly where runs end.
spec fn ends_at_runs(runs: Seq<EntryRun>, ends: Set<u32>, n: int) -> bool {
    forall|j: int, i: u32|
        0 <= j < runs.len() && run_shreds_len(#[trigger] runs.take(j)) <= i < run_shreds_len(
            runs.take(j + 1),
        ) && i < n ==> (#[trigger] ends.contains(i) <==> i == run_shreds_len(runs.take(j + 1)) - 1)
}

/// The complete runs below `n` are those that end below it.
proof fn lemma_ranges_of_runs(
    slot: Slot,
    parent: Slot,
    runs: Seq<EntryRun>,
    ends: Set<u32>,
    j: int,
    n: int,
)
    requires
        runs_of(slot, parent, runs),
        ends_at_runs(runs, ends, n),
        0 <= j <= runs.len(),
        run_shreds_len(runs.take(j)) <= n <= run_shreds_len(runs),
        j < runs.len() ==> n < run_shreds_len(runs.take(j + 1)),
    ensures
        data_ranges(0, ends, n) == run_ranges(runs.take(j)),
        run_start(ends, n) == run_shreds_len(runs.take(j)),
    decreases n,
{
    lemma_run_lens(runs, j);
    if n == 0 {
        if j > 0 {
            lemma_run_lens(runs, j - 1);
            lemma_run_lens(runs.take(j), j - 1);
            assert(runs[j - 1].bytes.len() > 0);
        }
        assert(data_ranges(0, ends, 0) =~= run_ranges(runs.take(0)));
    } else if n == run_shreds_len(runs.take(j)) {
        assert(j > 0);
        lemma_run_lens(runs, j - 1);
        assert(runs[j - 1].bytes.len() > 0);
        let i = (n - 1) as u32;
        assert(runs.take(j - 1).len() == j - 1);
        assert(runs.take((j - 1) + 1) == runs.take(j));
        assert(ends.contains(i) <==> i == run_shreds_len(runs.take(j)) - 1);
        lemma_ranges_of_runs(slot, parent, runs, ends, j - 1, n - 1);
        let shorter = run_ranges(runs.take(j - 1));
        let longer = run_ranges(runs.take(j));
        assert forall|k: int| 0 <= k < j - 1 implies shorter[k] == longer[k] by {
            assert(runs.take(j).take(k) =~= runs.take(j - 1).take(k));
            assert(runs.take(j).take(k + 1) =~= runs.take(j - 1).take(k + 1));
        }
        assert(runs.take(j).take(j - 1) =~= runs.take(j - 1));
        assert(runs.take(j).take(j) =~= runs.take(j));
        assert(data_ranges(0, ends, n) =~= longer);
    } else {
        assert(j < runs.len()) by {
            assert(runs.take(runs.len() as int) =~= runs);
        }
        let i = (n - 1) as u32;
        assert(ends.contains(i) <==> i == run_shreds_len(runs.take(j + 1)) - 1) by {
            assert(run_shreds_len(runs.take(j)) <= i < run_shreds_len(runs.take(j + 1)));
        }
        lemma_ranges_of_runs(slot, parent, runs, ends, j, n - 1);
    }
}

/// The shreds of a run are stored where all shreds at their indexes are.
proof fn lemma_run_stored(
    ledger: LedgerView,
    slot: Slot,
    runs: Seq<EntryRun>,
    j: int,
    first: u32,
)
    requires
        0 <= j < runs.len(),
        first == run_shreds_len(runs.take(j)),
        run_shreds_len(runs) <= u32::MAX,
        holds_some(ledger, slot, run_shreds(runs)),
        forall|i: u64|
            i < run_shreds_len(runs.take(j + 1)) ==> #[trigger] stored_in(ledger, slot)(i),
    ensures
        stores_all(
            ledger,
            slot,
            first,
            runs[j].shredder.shreds_of(runs[j].bytes, runs[j].is_last_in_slot, first),
        ),
{
    let shreds = runs[j].shredder.shreds_of(runs[j].bytes, runs[j].is_last_in_slot, first);
    lemma_run_lens(runs, j);
    lemma_run_lens(runs, j + 1);
    assert forall|x: int| 0 <= x < shreds.len() implies stores_at(
        ledger,
        SlotIndex { slot, index: (first + x) as u64 },
        #[trigger] shreds[x],
    ) by {
        lemma_run_shred(runs, j, x);
        let i = (first + x) as u64;
        assert(stored_in(ledger, slot)(i));
        assert(ledger.data_shreds.contains_key(SlotIndex { slot, index: i }));
    }
}

/// The entries of stored runs.
proof fn lemma_ranges_entries(
    ledger: LedgerView,
    slot: Slot,
    parent: Slot,
    runs: Seq<EntryRun>,
    k: int,
)
    requires
        runs_of(slot, parent, runs),
        0 <= k <= runs.len(),
        holds_some(ledger, slot, run_shreds(runs)),
        forall|i: u64|
            i < run_shreds_len(runs.take(k)) ==> #[trigger] stored_in(ledger, slot)(i),
    ensures
        ranges_entries(ledger, slot, run_ranges(runs.take(k))) == Ok::<
            Seq<EntryView>,
            InvalidShredData,
        >(run_entries(runs.take(k))),
    decreases k,
{
    if k > 0 {
        let run = runs[k - 1];
        let start = run_shreds_len(runs.take(k - 1));
        lemma_run_lens(runs, k - 1);
        lemma_run_lens(runs, k);
        lemma_ranges_entries(ledger, slot, parent, runs, k - 1);
        let first = start as u32;
        lemma_run_stored(ledger, slot, runs, k - 1, first);
        law_block_reads_back(
            ledger,
            run.shredder,
            run.bytes,
            run.entries,
            run.is_last_in_slot,
            first,
        );
        let ranges = run_ranges(runs.take(k));
        assert(runs.take(k).take(k - 1) =~= runs.take(k - 1));
        assert(runs.take(k).take(k) =~= runs.take(k));
        assert(runs.take(k).drop_last() =~= runs.take(k - 1));
        assert forall|j: int| 0 <= j < k - 1 implies ranges[j] == run_ranges(runs.take(k - 1))[j] by {
            assert(runs.take(k).take(j) =~= runs.take(k - 1).take(j));
            assert(runs.take(k).take(j + 1) =~= runs.take(k - 1).take(j + 1));
        }
        assert(ranges.drop_last() =~= run_ranges(runs.take(k - 1)));
        assert(ranges.last() == (start as u32, (run_shreds_len(runs.take(k)) - 1) as u32));
    }
}

/// The ledger holds all shreds of the first `k` runs of a slot, and not all of the next.
pub open spec fn holds_runs(ledger: LedgerView, slot: Slot, runs: Seq<EntryRun>, k: int) -> bool {
    &&& 0 <= k <= runs.len()
    &&& holds_some(ledger, slot, run_shreds(runs))
    &&& forall|i: u64| i < run_shreds_len(runs.take(k)) ==> #[trigger] stored_in(ledger, slot)(i)
    &&& k < runs.len() ==> exists|i: u64|
        i < run_shreds_len(runs.take(k + 1)) && !#[trigger] stored_in(ledger, slot)(i)
}

/// Below the first missing shred, ends are noted where runs end.
proof fn lemma_ends_noted(
    ledger: LedgerView,
    slot: Slot,
    parent: Slot,
    runs: Seq<EntryRun>,
)
    requires
        consistent(ledger),
        ends_marked(ledger),
        runs_of(slot, parent, runs),
        holds_some(ledger, slot, run_shreds(runs)),
        ledger.meta.contains_key(slot),
    ensures
        ends_at_runs(
            runs,
            ledger.meta[slot].completed_data_indexes,
            ledger.meta[slot].consumed as int,
        ),
{
    let present = stored_in(ledger, slot);
    let meta = ledger.meta[slot];
    let n = meta.consumed as int;
    let ends = meta.completed_data_indexes;
    assert(meta_agrees(meta, present));
    assert forall|j: int, i: u32|
        0 <= j < runs.len() && run_shreds_len(#[trigger] runs.take(j)) <= i < run_shreds_len(
            runs.take(j + 1),
        ) && i < n implies (#[trigger] ends.contains(i) <==> i == run_shreds_len(
        runs.take(j + 1),
    ) - 1) by {
        let key = SlotIndex { slot, index: i as u64 };
        assert(present(i as u64));
        assert(ledger.data_shreds.contains_key(key));
        lemma_shred_of_run(slot, parent, runs, j, i as int);
        assert(ledger.meta[slot].completed_data_indexes.contains(i) <==> ends_run(
            ledger.data_shreds[key],
        ));
    }
}

/// The first missing shred of a slot is in the run after the first `k`.
proof fn lemma_first_gap(ledger: LedgerView, slot: Slot, runs: Seq<EntryRun>, k: int)
    requires
        consistent(ledger),
        holds_runs(ledger, slot, runs, k),
        run_shreds_len(runs) < u32::MAX,
        ledger.meta.contains_key(slot),
    ensures
        run_shreds_len(runs.take(k)) <= ledger.meta[slot].consumed <= run_shreds_len(runs),
        k < runs.len() ==> ledger.meta[slot].consumed < run_shreds_len(runs.take(k + 1)),
{
    let present = stored_in(ledger, slot);
    let meta = ledger.meta[slot];
    lemma_run_lens(runs, k);
    assert(meta_agrees(meta, present));
    if meta.consumed < run_shreds_len(runs.take(k)) {
        assert(present(meta.consumed));
    }
    if meta.consumed > run_shreds_len(runs) {
        let beyond = run_shreds_len(runs) as u64;
        assert(present(beyond));
        assert(ledger.data_shreds.contains_key(SlotIndex { slot, index: beyond }));
    }
    if k < runs.len() {
        let i = choose|i: u64| i < run_shreds_len(runs.take(k + 1)) && !#[trigger] present(i);
        if i < meta.consumed {
            assert(present(i));
        }
    }
}

/// The complete runs of a slot are the first `k`.
proof fn lemma_slot_ranges(
    ledger: LedgerView,
    slot: Slot,
    parent: Slot,
    runs: Seq<EntryRun>,
    k: int,
)
    requires
        consistent(ledger),
        ends_marked(ledger),
        runs_of(slot, parent, runs),
        holds_runs(ledger, slot, runs, k),
    ensures
        slot_ranges(ledger, slot, 0) == run_ranges(runs.take(k)),
{
    let present = stored_in(ledger, slot);
    lemma_run_lens(runs, k);
    if ledger.meta.contains_key(slot) {
        let meta = ledger.meta[slot];
        lemma_ends_noted(ledger, slot, parent, runs);
        lemma_first_gap(ledger, slot, runs, k);
        lemma_ranges_of_runs(
            slot,
            parent,
            runs,
            meta.completed_data_indexes,
            k,
            meta.consumed as int,
        );
    } else {
        assert(run_shreds_len(runs.take(k)) == 0) by {
            if run_shreds_len(runs.take(k)) > 0 {
                assert(present(0));
                assert(ledger.data_shreds.contains_key(SlotIndex { slot, index: 0 }));
            }
        }
        if k > 0 {
            lemma_run_lens(runs, k - 1);
            assert(runs[k - 1].bytes.len() > 0);
        }
        assert(slot_ranges(ledger, slot, 0) =~= run_ranges(runs.take(k)));
    }
}

/// What a slot was given is what it gives back: in a consistent ledger whose ends of runs are
/// marked, a slot that is neither dead nor purged, and that stores some of the shreds of its
/// runs, however they came, has the entries of its first runs, up to the first of which a shred
/// is missing. A slot of which no shred is missing has all of its entries.
pub proof fn law_slot_reads_back(
    store: BlockstoreView,
    slot: Slot,
    parent: Slot,
    runs: Seq<EntryRun>,
    k: int,
)
    requires
        consistent(store.ledger),
        ends_marked(store.ledger),
        runs_of(slot, parent, runs),
        !cleaned_up(store, slot),
        !dead(store.ledger, slot),
        holds_runs(store.ledger, slot, runs, k),
    ensures
        slot_entries_info(store, slot, 0, false) == Ok::<
            (Seq<EntryView>, u64, bool),
            BlockstoreError,
        >(
            (
                run_entries(runs.take(k)),
                run_shreds_len(runs.take(k)) as u64,
                store.ledger.meta.contains_key(slot) && store.ledger.meta[slot].is_full(),
            ),
        ),
        slot_entries(store, slot, 0) == Ok::<Seq<EntryView>, BlockstoreError>(
            run_entries(runs.take(k)),
        ),
{
    let ledger = store.ledger;
    lemma_run_lens(runs, k);
    lemma_slot_ranges(ledger, slot, parent, runs, k);
    lemma_ranges_entries(ledger, slot, parent, runs, k);
    let ranges = run_ranges(runs.take(k));
    assert(runs.take(k).take(k) =~= runs.take(k));
    if k == 0 {
        assert(run_entries(runs.take(0)) =~= Seq::empty());
    } else {
        lemma_run_lens(runs, k - 1);
        assert(runs[k - 1].bytes.len() > 0);
        assert(ranges.last().1 == (run_shreds_len(runs.take(k)) - 1) as u32);
        assert(ledger.meta.contains_key(slot));
    }
}

} // verus!
