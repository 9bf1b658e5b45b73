//! Reading the entries of a slot goes on where it stopped, without a gap.

use vstd::prelude::*;
use crate::blockstore::BlockstoreView;
use crate::column::SlotIndex;
use crate::entries::decoded_entries;
use crate::ledger::LedgerView;
use crate::records::{BlockstoreError, EntryView, InvalidShredData};
use crate::shred::{deshredded, parse_shred, ShredView};
use crate::slot_entries::{
    block_entries, data_ranges, lemma_ranges_skip, ranges_entries, shreds_from, slot_entries_info,
    slot_ranges, valid_ranges_entries,
};
use crate::slot_update::run_start;
use crate::types::Slot;

verus! {

proof fn lemma_run_start_at_least(ends: Set<u32>, m: u32, n: int)
    requires
        ends.contains(m),
        m < n <= u32::MAX + 1,
    ensures
        m + 1 <= run_start(ends, n) <= n,
    decreases n,
{
    if n - 1 > m && !ends.contains((n - 1) as u32) {
        lemma_run_start_at_least(ends, m, n - 1);
    }
}

proof fn lemma_run_start_at_most(ends: Set<u32>, start: int, n: int)
    requires
        0 <= start <= n <= u32::MAX + 1,
        forall|x: u32| start <= x < n ==> !ends.contains(x),
    ensures
        run_start(ends, n) <= start,
    decreases n,
{
    if n > start {
        assert(!ends.contains((n - 1) as u32));
        lemma_run_start_at_most(ends, start, n - 1);
    } else if n > 0 && !ends.contains((n - 1) as u32) {
        lemma_run_start_at_most(ends, start - 1, n - 1);
    }
}

proof fn lemma_run_start_after(ends: Set<u32>, n: int, x: u32)
    requires
        0 <= n <= u32::MAX + 1,
        run_start(ends, n) <= x < n,
    ensures
        !ends.contains(x),
    decreases n,
{
    if n > 0 && !ends.contains((n - 1) as u32) {
        if x < n - 1 {
            lemma_run_start_after(ends, n - 1, x);
        }
    }
}

/// A run starts where the one before it ends, the first at `start`; it ends before `n`, at a shred
/// that ends a run, and holds no other such shred.
pub open spec fn run_fits(start: int, ends: Set<u32>, n: int, runs: Seq<(u32, u32)>, i: int) -> bool {
    let run = runs[i];
    &&& run.0 == if i == 0 {
        start
    } else {
        runs[i - 1].1 + 1
    }
    &&& run.0 <= run.1 < n
    &&& ends.contains(run.1)
    &&& forall|x: u32| run.0 <= x < run.1 ==> !#[trigger] ends.contains(x)
}

/// One of some runs ends at a shred.
pub open spec fn one_ends_at(runs: Seq<(u32, u32)>, x: u32) -> bool {
    exists|i: int| 0 <= i < runs.len() && (#[trigger] runs[i]).1 == x
}

/// The runs that are complete before `n` follow each other from `start` on without a gap. Each
/// ends where a shred ends a run and holds no other such shred; and every shred from `start` on
/// that ends a run ends one of them.
pub proof fn law_runs_follow_each_other(start: int, ends: Set<u32>, n: int)
    requires
        0 <= start,
        0 <= n <= u32::MAX + 1,
    ensures
        ({
            let runs = data_ranges(start, ends, n);
            &&& forall|i: int| 0 <= i < runs.len() ==> #[trigger] run_fits(start, ends, n, runs, i)
            &&& forall|x: u32|
                start <= x < n && ends.contains(x) ==> #[trigger] one_ends_at(runs, x)
        }),
    decreases n,
{
    let runs = data_ranges(start, ends, n);
    if n > start && n > 0 {
        law_runs_follow_each_other(start, ends, n - 1);
        let earlier = data_ranges(start, ends, n - 1);
        let last = (n - 1) as u32;
        if ends.contains(last) {
            lemma_next_run(start, ends, n);
            assert forall|i: int| 0 <= i < runs.len() implies #[trigger] run_fits(
                start,
                ends,
                n,
                runs,
                i,
            ) by {
                if i < earlier.len() {
                    assert(run_fits(start, ends, n - 1, earlier, i));
                    assert(runs[i] == earlier[i]);
                    if i > 0 {
                        assert(runs[i - 1] == earlier[i - 1]);
                    }
                }
            }
            assert forall|x: u32| start <= x < n && ends.contains(x) implies #[trigger] one_ends_at(
                runs,
                x,
            ) by {
                if x == last {
                    assert(runs[earlier.len() as int].1 == x);
                } else {
                    assert(one_ends_at(earlier, x));
                    let i = choose|i: int| 0 <= i < earlier.len() && (#[trigger] earlier[i]).1 == x;
                    assert(runs[i] == earlier[i]);
                }
            }
        } else {
            assert forall|i: int| 0 <= i < runs.len() implies #[trigger] run_fits(
                start,
                ends,
                n,
                runs,
                i,
            ) by {
                assert(run_fits(start, ends, n - 1, earlier, i));
            }
        }
    }
}

/// The run that ends right before `n` fits behind those before it.
proof fn lemma_next_run(start: int, ends: Set<u32>, n: int)
    requires
        0 <= start < n <= u32::MAX + 1,
        ends.contains((n - 1) as u32),
        forall|i: int|
            0 <= i < data_ranges(start, ends, n - 1).len() ==> #[trigger] run_fits(
                start,
                ends,
                n - 1,
                data_ranges(start, ends, n - 1),
                i,
            ),
        forall|x: u32|
            start <= x < n - 1 && ends.contains(x) ==> #[trigger] one_ends_at(
                data_ranges(start, ends, n - 1),
                x,
            ),
    ensures
        run_fits(
            start,
            ends,
            n,
            data_ranges(start, ends, n),
            data_ranges(start, ends, n - 1).len() as int,
        ),
{
    let earlier = data_ranges(start, ends, n - 1);
    let runs = data_ranges(start, ends, n);
    let at = earlier.len() as int;
    assert forall|x: u32| run_start(ends, n - 1) <= x < n - 1 implies !#[trigger] ends.contains(
        x,
    ) by {
        lemma_run_start_after(ends, n - 1, x);
    }
    if at > 0 {
        let m = earlier[at - 1].1;
        assert(run_fits(start, ends, n - 1, earlier, at - 1));
        lemma_run_start_at_least(ends, m, n - 1);
        assert forall|x: u32| m < x < n - 1 implies !ends.contains(x) by {
            if ends.contains(x) {
                lemma_ends_increase(start, ends, n - 1, 0, at - 1);
                assert(run_fits(start, ends, n - 1, earlier, 0));
                assert(one_ends_at(earlier, x));
                let i = choose|i: int| 0 <= i < earlier.len() && (#[trigger] earlier[i]).1 == x;
                lemma_ends_increase(start, ends, n - 1, i, at - 1);
            }
        }
        lemma_run_start_at_most(ends, m + 1, n - 1);
        assert(runs[at - 1] == earlier[at - 1]);
        lemma_ends_increase(start, ends, n - 1, 0, at - 1);
        assert(run_fits(start, ends, n - 1, earlier, 0));
    } else {
        assert forall|x: u32| start <= x < n - 1 implies !ends.contains(x) by {
            if ends.contains(x) {
                assert(one_ends_at(earlier, x));
            }
        }
        lemma_run_start_at_most(ends, start, n - 1);
    }
}

/// The ends of runs increase.
proof fn lemma_ends_increase(start: int, ends: Set<u32>, n: int, i: int, j: int)
    requires
        0 <= start,
        0 <= n <= u32::MAX + 1,
        0 <= i <= j < data_ranges(start, ends, n).len(),
    ensures
        data_ranges(start, ends, n)[i].1 <= data_ranges(start, ends, n)[j].1 < n,
    decreases n,
{
    let runs = data_ranges(start, ends, n);
    let earlier = data_ranges(start, ends, n - 1);
    if j < earlier.len() {
        assert(runs[i] == earlier[i] && runs[j] == earlier[j]);
        lemma_ends_increase(start, ends, n - 1, i, j);
    } else if i < earlier.len() {
        assert(runs[i] == earlier[i]);
        lemma_ends_increase(start, ends, n - 1, i, i);
    }
}

/// Runs up to the end of one, and those after it, are all runs.
proof fn lemma_ranges_split(start: int, ends: Set<u32>, m: u32, n: int)
    requires
        0 <= start <= m < n <= u32::MAX + 1,
        ends.contains(m),
    ensures
        data_ranges(start, ends, n) == data_ranges(start, ends, m + 1) + data_ranges(
            m + 1,
            ends,
            n,
        ),
    decreases n,
{
    let first = data_ranges(start, ends, m + 1);
    if n == m + 1 {
        assert(data_ranges(m + 1, ends, n) =~= Seq::empty());
        assert(first + data_ranges(m + 1, ends, n) =~= first);
    } else {
        lemma_ranges_split(start, ends, m, n - 1);
        lemma_run_start_at_least(ends, m, n - 1);
        assert(data_ranges(start, ends, n) =~= first + data_ranges(m + 1, ends, n));
    }
}

/// Which runs are complete depends on the ends before `n` alone.
proof fn lemma_ranges_same(start: int, a: Set<u32>, b: Set<u32>, n: int)
    requires
        0 <= start,
        n <= u32::MAX + 1,
        forall|x: u32| x < n ==> (#[trigger] a.contains(x) <==> b.contains(x)),
    ensures
        data_ranges(start, a, n) == data_ranges(start, b, n),
    decreases n,
{
    if n > start && n > 0 {
        lemma_ranges_same(start, a, b, n - 1);
        lemma_run_start_same(a, b, n - 1);
        assert(a.contains((n - 1) as u32) <==> b.contains((n - 1) as u32));
    }
}

proof fn lemma_run_start_same(a: Set<u32>, b: Set<u32>, n: int)
    requires
        0 <= n <= u32::MAX + 1,
        forall|x: u32| x < n ==> (#[trigger] a.contains(x) <==> b.contains(x)),
    ensures
        run_start(a, n) == run_start(b, n),
    decreases n,
{
    if n > 0 {
        assert(a.contains((n - 1) as u32) <==> b.contains((n - 1) as u32));
        lemma_run_start_same(a, b, n - 1);
    }
}

/// Two ledgers hold the same data shreds of a slot before index `n`.
pub open spec fn same_shreds_before(a: LedgerView, b: LedgerView, slot: Slot, n: int) -> bool {
    forall|k: SlotIndex|
        k.slot == slot && k.index < n ==> (#[trigger] a.data_shreds.contains_key(k)
            <==> b.data_shreds.contains_key(k)) && (a.data_shreds.contains_key(k)
            ==> a.data_shreds[k] == b.data_shreds[k])
}

proof fn lemma_shreds_same(a: LedgerView, b: LedgerView, slot: Slot, start: int, n: int, to: int)
    requires
        0 <= start,
        start + n <= to <= u32::MAX + 1,
        same_shreds_before(a, b, slot, to),
    ensures
        shreds_from(a, slot, start, n) == shreds_from(b, slot, start, n),
    decreases n,
{
    if n > 0 {
        lemma_shreds_same(a, b, slot, start, n - 1, to);
        let k = SlotIndex { slot, index: (start + n - 1) as u64 };
        assert(a.data_shreds.contains_key(k) <==> b.data_shreds.contains_key(k));
    }
}

proof fn lemma_entries_same(
    a: LedgerView,
    b: LedgerView,
    slot: Slot,
    ranges: Seq<(u32, u32)>,
    to: int,
)
    requires
        same_shreds_before(a, b, slot, to),
        to <= u32::MAX + 1,
        forall|i: int| 0 <= i < ranges.len() ==> (#[trigger] ranges[i]).0 <= ranges[i].1 < to,
    ensures
        ranges_entries(a, slot, ranges) == ranges_entries(b, slot, ranges),
    decreases ranges.len(),
{
    if ranges.len() > 0 {
        let rest = ranges.drop_last();
        assert forall|i: int| 0 <= i < rest.len() implies (#[trigger] rest[i]).0 <= rest[i].1
            < to by {
            assert(rest[i] == ranges[i]);
        }
        lemma_entries_same(a, b, slot, rest, to);
        let r = ranges[ranges.len() - 1];
        lemma_shreds_same(a, b, slot, r.0 as int, r.1 - r.0 + 1, to);
    }
}

/// The entries of runs and of those after them are those of all of them.
proof fn lemma_entries_joined(
    ledger: LedgerView,
    slot: Slot,
    first: Seq<(u32, u32)>,
    second: Seq<(u32, u32)>,
)
    ensures
        match (ranges_entries(ledger, slot, first), ranges_entries(ledger, slot, second)) {
            (Ok(a), Ok(b)) => ranges_entries(ledger, slot, first + second) == Ok::<
                Seq<EntryView>,
                InvalidShredData,
            >(a + b),
            (Err(e), _) => ranges_entries(ledger, slot, first + second) is Err,
            (_, Err(e)) => ranges_entries(ledger, slot, first + second) is Err,
        },
    decreases second.len(),
{
    if second.len() == 0 {
        assert(first + second =~= first);
        match ranges_entries(ledger, slot, first) {
            Ok(a) => {
                assert(a + Seq::<EntryView>::empty() =~= a);
            },
            Err(_) => {},
        }
    } else {
        let rest = second.drop_last();
        lemma_entries_joined(ledger, slot, first, rest);
        assert((first + second).drop_last() =~= first + rest);
        assert((first + second).last() == second.last());
        match (
            ranges_entries(ledger, slot, first),
            ranges_entries(ledger, slot, rest),
            block_entries(ledger, slot, second.last().0, second.last().1),
        ) {
            (Ok(a), Ok(b), Ok(c)) => {
                assert((a + b) + c =~= a + (b + c));
            },
            _ => {},
        }
    }
}

/// A slot can be read from a shred on: the shred is among its first consecutive ones, or the one
/// after them.
pub open spec fn can_start_at(ledger: LedgerView, slot: Slot, start_index: u64) -> bool {
    ledger.meta.contains_key(slot) && start_index <= ledger.meta[slot].consumed <= u32::MAX
}

/// Entries that are read from a shred on are refused only for what is wrong with the slot or its
/// shreds: where it was purged, where it is dead and dead slots are not asked for, or where its
/// shreds cannot be read. The shreds that are counted reach to the end of the last complete run:
/// one past them lies within the consecutive shreds of the slot, and no shred from there on ends
/// a run. No shreds are counted only where no run is complete, and then there are no entries. The
/// slot is told to be full where all shreds up to its last are there.
pub proof fn law_counted_shreds_end_the_last_run(
    store: BlockstoreView,
    slot: Slot,
    start_index: u64,
    allow_dead_slots: bool,
)
    requires
        can_start_at(store.ledger, slot, start_index),
    ensures
        ({
            let meta = store.ledger.meta[slot];
            let ends = meta.completed_data_indexes;
            let purged = store.lowest_cleanup_slot > 0 && slot <= store.lowest_cleanup_slot;
            let is_dead = store.ledger.dead_slots.contains_key(slot)
                && store.ledger.dead_slots[slot];
            match slot_entries_info(store, slot, start_index, allow_dead_slots) {
                Ok((entries, num_shreds, is_full)) => {
                    let next = start_index + num_shreds;
                    &&& !purged
                    &&& is_dead ==> allow_dead_slots
                    &&& next <= meta.consumed
                    &&& forall|x: u32| next <= x < meta.consumed ==> !#[trigger] ends.contains(x)
                    &&& num_shreds > 0 ==> ends.contains((next - 1) as u32)
                    &&& num_shreds == 0 ==> entries.len() == 0
                    &&& is_full <==> meta.last_index is Some && meta.consumed == meta.last_index->0
                        + 1
                },
                Err(e) => if purged {
                    e == BlockstoreError::SlotCleanedUp
                } else if is_dead && !allow_dead_slots {
                    e == BlockstoreError::DeadSlot
                } else {
                    e is InvalidShredData
                },
            }
        }),
{
    let meta = store.ledger.meta[slot];
    let ends = meta.completed_data_indexes;
    let runs = slot_ranges(store.ledger, slot, start_index);
    let start = start_index as int;
    let n = meta.consumed as int;
    law_runs_follow_each_other(start, ends, n);
    if runs.len() > 0 {
        let last = runs.len() - 1;
        let m = runs[last].1;
        lemma_ends_increase(start, ends, n, 0, last);
        assert(run_fits(start, ends, n, runs, 0));
        assert(run_fits(start, ends, n, runs, last));
        assert forall|x: u32| m < x < n implies !#[trigger] ends.contains(x) by {
            if ends.contains(x) {
                assert(one_ends_at(runs, x));
                let i = choose|i: int| 0 <= i < runs.len() && (#[trigger] runs[i]).1 == x;
                lemma_ends_increase(start, ends, n, i, last);
            }
        }
    } else {
        assert forall|x: u32| start <= x < n implies !#[trigger] ends.contains(x) by {
            if ends.contains(x) {
                assert(one_ends_at(runs, x));
            }
        }
    }
}

/// The state of a slot is a later one of another: the shreds that were consecutive are there as
/// before and end the same runs, and there may be more after them.
pub open spec fn slot_grew(before: LedgerView, after: LedgerView, slot: Slot) -> bool {
    let a = before.meta[slot];
    let b = after.meta[slot];
    &&& before.meta.contains_key(slot)
    &&& after.meta.contains_key(slot)
    &&& a.consumed <= b.consumed <= u32::MAX
    &&& forall|x: u32|
        x < a.consumed ==> (#[trigger] a.completed_data_indexes.contains(x)
            <==> b.completed_data_indexes.contains(x))
    &&& same_shreds_before(before, after, slot, a.consumed as int)
}

/// A reader goes on where it stopped: what it read from a shred on, and what it then reads from
/// after the shreds that were counted, once the slot may have grown, is together what is read
/// from the first shred on at once, and takes as many shreds.
pub proof fn law_reading_goes_on(
    before: BlockstoreView,
    after: BlockstoreView,
    slot: Slot,
    start_index: u64,
    allow_dead_slots: bool,
    first: (Seq<EntryView>, u64, bool),
    second: (Seq<EntryView>, u64, bool),
)
    requires
        can_start_at(before.ledger, slot, start_index),
        slot_grew(before.ledger, after.ledger, slot),
        slot_entries_info(before, slot, start_index, allow_dead_slots) == Ok::<
            (Seq<EntryView>, u64, bool),
            BlockstoreError,
        >(first),
        slot_entries_info(
            after,
            slot,
            (start_index + first.1) as u64,
            allow_dead_slots,
        ) == Ok::<(Seq<EntryView>, u64, bool), BlockstoreError>(second),
    ensures
        slot_entries_info(after, slot, start_index, allow_dead_slots) == Ok::<
            (Seq<EntryView>, u64, bool),
            BlockstoreError,
        >((first.0 + second.0, (first.1 + second.1) as u64, second.2)),
{
    let a = before.ledger.meta[slot].completed_data_indexes;
    let b = after.ledger.meta[slot].completed_data_indexes;
    let na = before.ledger.meta[slot].consumed as int;
    let nb = after.ledger.meta[slot].consumed as int;
    let start = start_index as int;
    law_counted_shreds_end_the_last_run(before, slot, start_index, allow_dead_slots);
    if first.1 == 0 {
        assert(first.0 + second.0 =~= second.0);
    } else {
        let m = (start_index + first.1 - 1) as u32;
        assert(a.contains(m));
        assert(b.contains(m));
        let old_runs = data_ranges(start, a, na);
        let new_runs = data_ranges(m + 1, b, nb);
        lemma_ranges_skip(start, a, m + 1, na);
        lemma_ranges_same(start, a, b, m + 1);
        lemma_ranges_split(start, b, m, nb);
        law_runs_follow_each_other(start, a, na);
        assert forall|i: int| 0 <= i < old_runs.len() implies (#[trigger] old_runs[i]).0
            <= old_runs[i].1 < na by {
            assert(run_fits(start, a, na, old_runs, i));
        }
        lemma_entries_same(before.ledger, after.ledger, slot, old_runs, na);
        lemma_entries_joined(after.ledger, slot, old_runs, new_runs);
        assert(data_ranges(start, b, nb) == old_runs + new_runs);
        assert(old_runs.len() > 0);
        if new_runs.len() == 0 {
            assert(old_runs + new_runs =~= old_runs);
            assert(first.0 + second.0 =~= first.0);
        } else {
            assert((old_runs + new_runs).last() == new_runs.last());
            law_counted_shreds_end_the_last_run(
                after,
                slot,
                (start_index + first.1) as u64,
                allow_dead_slots,
            );
            law_runs_follow_each_other(m + 1, b, nb);
            assert(run_fits(m + 1, b, nb, new_runs, 0));
            lemma_ends_increase(m + 1, b, nb, 0, new_runs.len() - 1);
        }
    }
}

/// What is read from after the end of a run on is the rest of what is read from before it: its
/// last entries, and as many fewer shreds as lie between the two.
pub proof fn law_later_reading_is_the_rest(
    store: BlockstoreView,
    slot: Slot,
    start_index: u64,
    end: u32,
    allow_dead_slots: bool,
    all: (Seq<EntryView>, u64, bool),
)
    requires
        can_start_at(store.ledger, slot, start_index),
        start_index <= end < store.ledger.meta[slot].consumed,
        store.ledger.meta[slot].completed_data_indexes.contains(end),
        slot_entries_info(store, slot, start_index, allow_dead_slots) == Ok::<
            (Seq<EntryView>, u64, bool),
            BlockstoreError,
        >(all),
    ensures
        slot_entries_info(store, slot, (end + 1) as u64, allow_dead_slots) matches Ok(rest) && {
            &&& start_index + all.1 == end + 1 + rest.1
            &&& rest.0.len() <= all.0.len()
            &&& rest.0 == all.0.skip(all.0.len() - rest.0.len())
            &&& rest.2 == all.2
        },
{
    let ledger = store.ledger;
    let ends = ledger.meta[slot].completed_data_indexes;
    let n = ledger.meta[slot].consumed as int;
    let start = start_index as int;
    let first = data_ranges(start, ends, end + 1);
    let second = data_ranges(end + 1, ends, n);
    lemma_ranges_split(start, ends, end, n);
    lemma_entries_joined(ledger, slot, first, second);
    assert(first.len() > 0 && first.last().1 == end);
    let runs = first + second;
    assert(runs == data_ranges(start, ends, n));
    match (ranges_entries(ledger, slot, first), ranges_entries(ledger, slot, second)) {
        (Ok(a), Ok(b)) => {
            assert((a + b).skip(a.len() as int) =~= b);
            if second.len() == 0 {
                assert(runs =~= first);
            } else {
                assert(runs.last() == second.last());
                lemma_ends_increase(end + 1, ends, n, 0, second.len() - 1);
                law_runs_follow_each_other(end + 1, ends, n);
                assert(run_fits(end + 1, ends, n, second, 0));
            }
        },
        _ => {},
    }
}

/// Where the entries of a slot can all be read, those that can be read are all of them; and
/// where no shreds can be put together to entries there are none.
pub proof fn law_readable_entries_are_all(
    store: BlockstoreView,
    slot: Slot,
    start_index: u64,
    all: (Seq<EntryView>, u64, bool),
)
    requires
        slot_entries_info(store, slot, start_index, true) == Ok::<
            (Seq<EntryView>, u64, bool),
            BlockstoreError,
        >(all),
    ensures
        valid_ranges_entries(store.ledger, slot, slot_ranges(store.ledger, slot, start_index))
            == all.0,
{
    lemma_valid_all(store.ledger, slot, slot_ranges(store.ledger, slot, start_index));
}

proof fn lemma_valid_all(ledger: LedgerView, slot: Slot, ranges: Seq<(u32, u32)>)
    ensures
        ranges_entries(ledger, slot, ranges) matches Ok(entries) ==> valid_ranges_entries(
            ledger,
            slot,
            ranges,
        ) == entries,
    decreases ranges.len(),
{
    if ranges.len() > 0 {
        lemma_valid_all(ledger, slot, ranges.drop_last());
    }
}

/// The entries of some runs and then of more are those of all of them. Where they are to be read in
/// full, one run that cannot be read has all of them refused; else such a run is left out, and
/// the others are read.
pub proof fn law_runs_are_read_one_by_one(
    ledger: LedgerView,
    slot: Slot,
    first: Seq<(u32, u32)>,
    run: (u32, u32),
)
    ensures
        block_entries(ledger, slot, run.0, run.1) matches Ok(entries) ==> valid_ranges_entries(
            ledger,
            slot,
            first.push(run),
        ) == valid_ranges_entries(ledger, slot, first) + entries,
        block_entries(ledger, slot, run.0, run.1) is Err ==> valid_ranges_entries(
            ledger,
            slot,
            first.push(run),
        ) == valid_ranges_entries(ledger, slot, first),
        ranges_entries(ledger, slot, first.push(run)) is Ok <==> ranges_entries(
            ledger,
            slot,
            first,
        ) is Ok && block_entries(ledger, slot, run.0, run.1) is Ok,
        ranges_entries(ledger, slot, first.push(run)) is Ok ==> ranges_entries(
            ledger,
            slot,
            first.push(run),
        )->Ok_0 == ranges_entries(ledger, slot, first)->Ok_0 + block_entries(
            ledger,
            slot,
            run.0,
            run.1,
        )->Ok_0,
{
    assert(first.push(run).drop_last() =~= first);
}

/// Every shred of a run is there, and can be read.
pub open spec fn all_read(ledger: LedgerView, slot: Slot, start: u32, end: u32) -> bool {
    forall|i: u64|
        start <= i <= end ==> #[trigger] ledger.data_shreds.contains_key(
            SlotIndex { slot, index: i },
        ) && parse_shred(ledger.data_shreds[SlotIndex { slot, index: i }]) is Some
}

/// The shreds of a run, as they are read.
pub open spec fn shreds_read(ledger: LedgerView, slot: Slot, start: u32, end: u32) -> Seq<ShredView> {
    Seq::new(
        (end - start + 1) as nat,
        |x: int|
            parse_shred(ledger.data_shreds[SlotIndex { slot, index: (start + x) as u64 }])->0,
    )
}

proof fn lemma_shreds_read(ledger: LedgerView, slot: Slot, start: u32, n: int)
    requires
        0 <= n,
        start + n <= u32::MAX + 1,
    ensures
        shreds_from(ledger, slot, start as int, n) is Ok <==> forall|i: u64|
            start <= i < start + n ==> #[trigger] ledger.data_shreds.contains_key(
                SlotIndex { slot, index: i },
            ) && parse_shred(ledger.data_shreds[SlotIndex { slot, index: i }]) is Some,
        shreds_from(ledger, slot, start as int, n) is Ok ==> shreds_from(
            ledger,
            slot,
            start as int,
            n,
        )->Ok_0 == Seq::new(
            n as nat,
            |x: int|
                parse_shred(ledger.data_shreds[SlotIndex { slot, index: (start + x) as u64 }])->0,
        ),
    decreases n,
{
    if n > 0 {
        lemma_shreds_read(ledger, slot, start, n - 1);
        let last = (start + n - 1) as u64;
        let key = SlotIndex { slot, index: last };
        if shreds_from(ledger, slot, start as int, n) is Ok {
            assert forall|i: u64| start <= i < start + n implies
                #[trigger] ledger.data_shreds.contains_key(SlotIndex { slot, index: i })
                && parse_shred(ledger.data_shreds[SlotIndex { slot, index: i }]) is Some by {
                if i == last {
                    assert(ledger.data_shreds.contains_key(key));
                }
            }
        } else if shreds_from(ledger, slot, start as int, n - 1) is Ok {
            assert(!ledger.data_shreds.contains_key(key) || parse_shred(
                ledger.data_shreds[key],
            ) is None);
        }
    } else {
        assert(Seq::new(
            n as nat,
            |x: int|
                parse_shred(ledger.data_shreds[SlotIndex { slot, index: (start + x) as u64 }])->0,
        ) =~= Seq::<ShredView>::empty());
    }
}

/// The entries of a run are given exactly where all its shreds are there and can be read, they can
/// be put together, and what they carry can be decoded; and they are what is decoded. A missing or
/// unreadable shred has the run refused.
pub proof fn law_run_is_read_from_its_shreds(ledger: LedgerView, slot: Slot, start: u32, end: u32)
    requires
        start <= end,
    ensures
        ({
            let bytes = deshredded(shreds_read(ledger, slot, start, end));
            &&& block_entries(ledger, slot, start, end) is Ok <==> all_read(
                ledger,
                slot,
                start,
                end,
            ) && bytes is Some && decoded_entries(bytes->0) is Some
            &&& block_entries(ledger, slot, start, end) matches Ok(entries) ==> decoded_entries(
                bytes->0,
            ) == Some(entries)
        }),
{
    lemma_shreds_read(ledger, slot, start, end - start + 1);
    let read = shreds_from(ledger, slot, start as int, end - start + 1);
    if read is Ok {
        assert(read->Ok_0 =~= shreds_read(ledger, slot, start, end));
    }
}

} // verus!
