//! The entries of a slot.

use vstd::prelude::*;
use crate::blockstore::{Blockstore, BlockstoreView};
use crate::column::{lists, ordered, splits_at, ColumnKey, Duplicate, KeySet, SlotIndex};
use crate::consistency::{consistent, ends_marked, ends_run, meta_agrees, stored_in};
use crate::entries::{decode_entries, decoded_entries};
use crate::ledger::LedgerView;
use crate::meta::SlotMeta;
use crate::records::{entry_views, BlockstoreError, Entry, EntryView, InvalidShredData, Result};
use crate::shred::{deshred, deshredded, parse_shred, shred_views, Shred, ShredView};
use crate::slot_update::{optional_meta, run_start};
use crate::types::Slot;

verus! {

/// The larger of two numbers.
pub open spec fn max_int(a: int, b: int) -> int {
    if a < b {
        b
    } else {
        a
    }
}

/// The complete runs of entries that end at or after `start` and before `n`, as inclusive
/// ranges of indexes. The first is cut at `start`.
pub open spec fn data_ranges(start: int, ends: Set<u32>, n: int) -> Seq<(u32, u32)>
    decreases n,
{
    if n <= start || n <= 0 {
        Seq::empty()
    } else {
        let earlier = data_ranges(start, ends, n - 1);
        if ends.contains((n - 1) as u32) {
            earlier.push((max_int(start, run_start(ends, n - 1)) as u32, (n - 1) as u32))
        } else {
            earlier
        }
    }
}

proof fn lemma_run_start_skip(ends: Set<u32>, low: int, high: int)
    requires
        0 <= low <= high <= u32::MAX + 1,
        forall|i: u32| low <= i < high ==> !ends.contains(i),
    ensures
        run_start(ends, high) == run_start(ends, low),
    decreases high - low,
{
    if low < high {
        assert(!ends.contains((high - 1) as u32));
        lemma_run_start_skip(ends, low, high - 1);
    }
}

proof fn lemma_run_start_bounded(ends: Set<u32>, n: int)
    requires
        0 <= n,
    ensures
        0 <= run_start(ends, n) <= n,
    decreases n,
{
    if n > 0 && !ends.contains((n - 1) as u32) {
        lemma_run_start_bounded(ends, n - 1);
    }
}

pub proof fn lemma_ranges_skip(start: int, ends: Set<u32>, low: int, high: int)
    requires
        0 <= start,
        0 <= low <= high <= u32::MAX + 1,
        forall|i: u32| low <= i < high && start <= i ==> !ends.contains(i),
    ensures
        data_ranges(start, ends, high) == data_ranges(start, ends, low),
    decreases high - low,
{
    if low < high {
        lemma_ranges_skip(start, ends, low, high - 1);
        if high > start {
            assert(!ends.contains((high - 1) as u32));
        } else {
            assert(data_ranges(start, ends, high) =~= data_ranges(start, ends, low));
        }
    }
}

/// The slot has been purged, or is being purged.
pub open spec fn cleaned_up(store: BlockstoreView, slot: Slot) -> bool {
    store.lowest_cleanup_slot > 0 && store.lowest_cleanup_slot >= slot
}

/// The slot is marked dead.
pub open spec fn dead(ledger: LedgerView, slot: Slot) -> bool {
    ledger.dead_slots.contains_key(slot) && ledger.dead_slots[slot]
}

/// The complete runs of entries of a slot from `start_index` on, of which all shreds are there.
pub open spec fn slot_ranges(ledger: LedgerView, slot: Slot, start_index: u64) -> Seq<(u32, u32)> {
    if ledger.meta.contains_key(slot) {
        let meta = ledger.meta[slot];
        data_ranges(
            (start_index as u32) as int,
            meta.completed_data_indexes,
            (meta.consumed as u32) as int,
        )
    } else {
        Seq::empty()
    }
}

/// The runs of a slot can be told: the reading starts within the consecutive shreds of the
/// slot, and no run ends at the first missing shred.
pub open spec fn ranges_valid(ledger: LedgerView, slot: Slot, start_index: u64) -> bool {
    ledger.meta.contains_key(slot) ==> {
        let meta = ledger.meta[slot];
        &&& start_index as u32 <= meta.consumed as u32
        &&& !meta.completed_data_indexes.contains(meta.consumed as u32)
        &&& slot_ranges(ledger, slot, start_index).len() > 0 ==> start_index <= u32::MAX
    }
}

/// The first `n` shreds of a slot from index `start` on, or why they cannot be read.
pub open spec fn shreds_from(ledger: LedgerView, slot: Slot, start: int, n: int) -> core::result::Result<
    Seq<ShredView>,
    InvalidShredData,
>
    decreases n,
{
    if n <= 0 {
        Ok(Seq::empty())
    } else {
        let key = SlotIndex { slot, index: (start + n - 1) as u64 };
        match shreds_from(ledger, slot, start, n - 1) {
            Err(e) => Err(e),
            Ok(earlier) => if !ledger.data_shreds.contains_key(key) {
                Err(InvalidShredData::Missing)
            } else {
                match parse_shred(ledger.data_shreds[key]) {
                    None => Err(InvalidShredData::Shred),
                    Some(shred) => Ok(earlier.push(shred)),
                }
            },
        }
    }
}

/// The entries in the shreds from index `start` to `end`, included, or why they cannot be
/// read.
pub open spec fn block_entries(
    ledger: LedgerView,
    slot: Slot,
    start: u32,
    end: u32,
) -> core::result::Result<Seq<EntryView>, InvalidShredData> {
    match shreds_from(ledger, slot, start as int, end - start + 1) {
        Err(e) => Err(e),
        Ok(shreds) => match deshredded(shreds) {
            None => Err(InvalidShredData::Run),
            Some(bytes) => match decoded_entries(bytes) {
                None => Err(InvalidShredData::Entries),
                Some(entries) => Ok(entries),
            },
        },
    }
}

/// The shreds from index `start` to `end` can be asked for: once all are read, the last of them
/// ends a run of entries. If `all_there` is on, the reading does not stop at one that is missing.
pub open spec fn run_readable(
    ledger: LedgerView,
    slot: Slot,
    start: u32,
    end: u32,
    all_there: bool,
) -> bool {
    match shreds_from(ledger, slot, start as int, end - start + 1) {
        Ok(_) => ends_run(ledger.data_shreds[SlotIndex { slot, index: end as u64 }]),
        Err(InvalidShredData::Missing) => !all_there,
        Err(_) => true,
    }
}

/// Some runs of a slot can be asked for.
pub open spec fn runs_readable(ledger: LedgerView, slot: Slot, ranges: Seq<(u32, u32)>) -> bool {
    forall|i: int|
        0 <= i < ranges.len() ==> (#[trigger] ranges[i]).0 <= ranges[i].1 && run_readable(
            ledger,
            slot,
            ranges[i].0,
            ranges[i].1,
            true,
        )
}

/// The entries of some runs, one after the other, or why the first run that cannot be read
/// cannot.
pub open spec fn ranges_entries(ledger: LedgerView, slot: Slot, ranges: Seq<(u32, u32)>) -> core::result::Result<
    Seq<EntryView>,
    InvalidShredData,
>
    decreases ranges.len(),
{
    if ranges.len() == 0 {
        Ok(Seq::empty())
    } else {
        match ranges_entries(ledger, slot, ranges.drop_last()) {
            Err(e) => Err(e),
            Ok(earlier) => match block_entries(ledger, slot, ranges.last().0, ranges.last().1) {
                Err(e) => Err(e),
                Ok(entries) => Ok(earlier + entries),
            },
        }
    }
}

/// The entries of those of some runs that can be read, one after the other.
pub open spec fn valid_ranges_entries(
    ledger: LedgerView,
    slot: Slot,
    ranges: Seq<(u32, u32)>,
) -> Seq<EntryView>
    decreases ranges.len(),
{
    if ranges.len() == 0 {
        Seq::empty()
    } else {
        let earlier = valid_ranges_entries(ledger, slot, ranges.drop_last());
        match block_entries(ledger, slot, ranges.last().0, ranges.last().1) {
            Err(_) => earlier,
            Ok(entries) => earlier + entries,
        }
    }
}

/// The entries of a slot from shred `start_index` on, how many shreds they take, and whether
/// the slot is full; or why they are not given out.
pub open spec fn slot_entries_info(
    store: BlockstoreView,
    slot: Slot,
    start_index: u64,
    allow_dead_slots: bool,
) -> core::result::Result<(Seq<EntryView>, u64, bool), BlockstoreError> {
    let ranges = slot_ranges(store.ledger, slot, start_index);
    if cleaned_up(store, slot) {
        Err(BlockstoreError::SlotCleanedUp)
    } else if dead(store.ledger, slot) && !allow_dead_slots {
        Err(BlockstoreError::DeadSlot)
    } else if ranges.len() == 0 {
        Ok(
            (
                Seq::empty(),
                0,
                store.ledger.meta.contains_key(slot) && store.ledger.meta[slot].is_full(),
            ),
        )
    } else {
        match ranges_entries(store.ledger, slot, ranges) {
            Err(e) => Err(BlockstoreError::InvalidShredData(e)),
            Ok(entries) => Ok(
                (
                    entries,
                    (ranges.last().1 - start_index + 1) as u64,
                    store.ledger.meta[slot].is_full(),
                ),
            ),
        }
    }
}

/// The entries of a slot from shred `start_index` on, or why they are not given out.
pub open spec fn slot_entries(store: BlockstoreView, slot: Slot, start_index: u64) -> core::result::Result<
    Seq<EntryView>,
    BlockstoreError,
> {
    match slot_entries_info(store, slot, start_index, false) {
        Err(e) => Err(e),
        Ok(info) => Ok(info.0),
    }
}

/// The entries of a slot can be asked for: its runs can be told, and, unless the slot is dead
/// and `allow_dead_slots` is off, their shreds are there.
pub open spec fn slot_readable(
    store: BlockstoreView,
    slot: Slot,
    start_index: u64,
    allow_dead_slots: bool,
) -> bool {
    !cleaned_up(store, slot) ==> {
        &&& ranges_valid(store.ledger, slot, start_index)
        &&& !dead(store.ledger, slot) || allow_dead_slots ==> runs_readable(
            store.ledger,
            slot,
            slot_ranges(store.ledger, slot, start_index),
        )
    }
}

/// Once a shred cannot be read, none after it matters.
pub proof fn lemma_shreds_from_err(ledger: LedgerView, slot: Slot, start: int, n: int, m: int)
    requires
        0 <= n <= m,
        shreds_from(ledger, slot, start, n) is Err,
    ensures
        shreds_from(ledger, slot, start, m) == shreds_from(ledger, slot, start, n),
    decreases m - n,
{
    if n < m {
        lemma_shreds_from_err(ledger, slot, start, n, m - 1);
    }
}

proof fn lemma_ranges_entries_err(
    ledger: LedgerView,
    slot: Slot,
    ranges: Seq<(u32, u32)>,
    n: int,
)
    requires
        0 <= n <= ranges.len(),
        ranges_entries(ledger, slot, ranges.take(n)) is Err,
    ensures
        ranges_entries(ledger, slot, ranges) == ranges_entries(ledger, slot, ranges.take(n)),
    decreases ranges.len() - n,
{
    if n == ranges.len() {
        assert(ranges.take(n) =~= ranges);
    } else {
        assert(ranges.take(n + 1).drop_last() =~= ranges.take(n));
        lemma_ranges_entries_err(ledger, slot, ranges, n + 1);
    }
}

fn append_entries(to: &mut Vec<Entry>, from: Vec<Entry>)
    ensures
        entry_views(final(to)@) == entry_views(old(to)@) + entry_views(from@),
{
    let mut other = from;
    to.append(&mut other);
    assert(entry_views(to@) =~= entry_views(old(to)@) + entry_views(from@));
}

impl Blockstore {
    /// Whether the slot is marked dead.
    pub fn is_dead(&self, slot: Slot) -> (result: bool)
        ensures
            result == dead(self@.ledger, slot),
    {
        match self.ledger.dead_slots.get(&slot) {
            Some(is_dead) => *is_dead,
            None => false,
        }
    }

    /// Refuses slots that have been purged, or are being purged.
    pub fn check_lowest_cleanup_slot(&self, slot: Slot) -> (result: Result<()>)
        ensures
            result == if cleaned_up(self@, slot) {
                Err::<(), BlockstoreError>(BlockstoreError::SlotCleanedUp)
            } else {
                Ok(())
            },
    {
        if self.lowest_cleanup_slot > 0 && self.lowest_cleanup_slot >= slot {
            return Err(BlockstoreError::SlotCleanedUp);
        }
        Ok(())
    }

    /// The complete runs of entries that end at or after `start_index` and before `consumed`.
    pub fn get_completed_data_ranges(
        start_index: u32,
        completed_data_indexes: &KeySet<u32>,
        consumed: u32,
    ) -> (result: Vec<(u32, u32)>)
        requires
            !completed_data_indexes@.contains(consumed),
            start_index <= consumed,
        ensures
            result@ == data_ranges(
                start_index as int,
                completed_data_indexes@,
                consumed as int,
            ),
    {
        let ghost ends = completed_data_indexes@;
        let ghost s = ordered(ends);
        let first: usize = completed_data_indexes.lower_bound(&start_index);
        let last: usize = completed_data_indexes.lower_bound(&consumed);
        let mut result: Vec<(u32, u32)> = Vec::new();
        let mut begin: u32 = start_index;
        let mut i: usize = first;
        proof {
            assert(data_ranges(start_index as int, ends, start_index as int) =~= Seq::empty());
            lemma_run_start_bounded(ends, start_index as int);
            if last < first {
                assert(s[last as int].before(start_index));
                assert(!s[last as int].before(consumed));
            }
        }
        while i < last
            invariant
                first <= i <= last,
                s == ordered(ends),
                ends == completed_data_indexes@,
                lists(s, ends),
                splits_at(s, start_index, first as int),
                splits_at(s, consumed, last as int),
                start_index <= begin <= consumed,
                begin == max_int(start_index as int, run_start(ends, begin as int)),
                result@ == data_ranges(start_index as int, ends, begin as int),
                i > first ==> begin == s[i - 1] + 1,
                i == first ==> begin == start_index,
            decreases last - i,
        {
            let index: u32 = completed_data_indexes.at(i);
            proof {
                assert(s[i as int].before(consumed));
                assert(!s[i as int].before(start_index));
                if i > first {
                    assert(s[i - 1].before(s[i as int]));
                }
                assert forall|j: u32| begin <= j < index implies !ends.contains(j) by {
                    if ends.contains(j) {
                        assert(s.contains(j));
                        let p = choose|p: int| 0 <= p < s.len() && s[p] == j;
                        if p < i {
                            if p < first {
                                assert(s[p].before(start_index));
                            } else {
                                if p < i - 1 {
                                    assert(s[p].before(s[i - 1]));
                                }
                            }
                        } else if p > i {
                            assert(s[i as int].before(s[p]));
                        }
                    }
                }
                lemma_ranges_skip(start_index as int, ends, begin as int, index as int);
                lemma_run_start_skip(ends, begin as int, index as int);
                assert(run_start(ends, index + 1) == index + 1);
            }
            result.push((begin, index));
            assert(result@ =~= data_ranges(start_index as int, ends, index + 1));
            begin = index + 1;
            i += 1;
        }
        proof {
            assert forall|j: u32| begin <= j < consumed && start_index <= j implies !ends.contains(
                j,
            ) by {
                if ends.contains(j) {
                    assert(s.contains(j));
                    let p = choose|p: int| 0 <= p < s.len() && s[p] == j;
                    if p < last {
                        if p < first {
                            assert(s[p].before(start_index));
                        } else if p < last - 1 {
                            assert(s[p].before(s[last - 1]));
                        }
                    } else {
                        assert(!s[p].before(consumed));
                    }
                }
            }
            lemma_ranges_skip(start_index as int, ends, begin as int, consumed as int);
        }
        result
    }

    /// The complete runs of entries of a slot from `start_index` on, and what is known of the
    /// slot.
    pub fn get_completed_ranges(&self, slot: Slot, start_index: u64) -> (result: Result<
        (Vec<(u32, u32)>, Option<SlotMeta>),
    >)
        requires
            !cleaned_up(self@, slot) ==> ranges_valid(self@.ledger, slot, start_index),
        ensures
            cleaned_up(self@, slot) <==> result is Err,
            result is Err ==> result->Err_0 == BlockstoreError::SlotCleanedUp,
            result is Ok ==> result->Ok_0.0@ == slot_ranges(self@.ledger, slot, start_index)
                && optional_meta(result->Ok_0.1) == if self@.ledger.meta.contains_key(slot) {
                Some(self@.ledger.meta[slot])
            } else {
                None
            },
    {
        match self.check_lowest_cleanup_slot(slot) {
            Err(e) => {
                return Err(e);
            },
            Ok(_) => {},
        }
        match self.ledger.meta.get(&slot) {
            None => {
                let none: Vec<(u32, u32)> = Vec::new();
                assert(none@ =~= Seq::empty());
                Ok((none, None))
            },
            Some(slot_meta) => {
                let start: u32 = truncate_u64(start_index);
                let consumed: u32 = truncate_u64(slot_meta.consumed);
                let completed_ranges = Self::get_completed_data_ranges(
                    start,
                    &slot_meta.completed_data_indexes,
                    consumed,
                );
                Ok((completed_ranges, Some(slot_meta.duplicate())))
            },
        }
    }

    /// The entries in the shreds from index `start_index` to `end_index`, included. Where
    /// `slot_meta` is given, the shreds have to be there.
    pub fn get_entries_in_data_block(
        &self,
        slot: Slot,
        start_index: u32,
        end_index: u32,
        slot_meta: Option<&SlotMeta>,
    ) -> (result: Result<Vec<Entry>>)
        requires
            start_index <= end_index,
            run_readable(self@.ledger, slot, start_index, end_index, slot_meta is Some),
        ensures
            match result {
                Ok(entries) => block_entries(self@.ledger, slot, start_index, end_index) == Ok::<
                    Seq<EntryView>,
                    InvalidShredData,
                >(entry_views(entries@)),
                Err(e) => block_entries(self@.ledger, slot, start_index, end_index) is Err && e
                    == BlockstoreError::InvalidShredData(
                    block_entries(self@.ledger, slot, start_index, end_index)->Err_0,
                ),
            },
    {
        let mut data_shreds: Vec<Shred> = Vec::new();
        let n: u64 = end_index as u64 - start_index as u64 + 1;
        let mut i: u64 = 0;
        assert(shred_views(data_shreds@) =~= Seq::empty());
        while i < n
            invariant
                0 <= i <= n,
                n == end_index - start_index + 1,
                start_index <= end_index,
                shreds_from(self@.ledger, slot, start_index as int, i as int) == Ok::<
                    Seq<ShredView>,
                    InvalidShredData,
                >(shred_views(data_shreds@)),
                data_shreds@.len() == i,
            decreases n - i,
        {
            let key = SlotIndex { slot, index: start_index as u64 + i };
            let ghost so_far = shred_views(data_shreds@);
            match self.ledger.data_shreds.get(&key) {
                None => {
                    proof {
                        lemma_shreds_from_err(
                            self@.ledger,
                            slot,
                            start_index as int,
                            i + 1,
                            n as int,
                        );
                    }
                    return Err(BlockstoreError::InvalidShredData(InvalidShredData::Missing));
                },
                Some(bytes) => match Shred::new_from_serialized_shred(bytes) {
                    None => {
                        proof {
                            lemma_shreds_from_err(
                                self@.ledger,
                                slot,
                                start_index as int,
                                i + 1,
                                n as int,
                            );
                        }
                        return Err(BlockstoreError::InvalidShredData(InvalidShredData::Shred));
                    },
                    Some(shred) => {
                        data_shreds.push(shred);
                        assert(shred_views(data_shreds@) =~= so_far.push(shred@));
                    },
                },
            }
            i += 1;
        }
        match deshred(&data_shreds) {
            None => Err(BlockstoreError::InvalidShredData(InvalidShredData::Run)),
            Some(bytes) => match decode_entries(&bytes) {
                None => Err(BlockstoreError::InvalidShredData(InvalidShredData::Entries)),
                Some(entries) => Ok(entries),
            },
        }
    }

    /// The entries of a slot from shred `start_index` on, how many shreds they take, and whether
    /// the slot is full. Refused for a slot that has been purged, and for one that is dead,
    /// unless `allow_dead_slots` is on.
    pub fn get_slot_entries_with_shred_info(
        &self,
        slot: Slot,
        start_index: u64,
        allow_dead_slots: bool,
    ) -> (result: Result<(Vec<Entry>, u64, bool)>)
        requires
            slot_readable(self@, slot, start_index, allow_dead_slots),
        ensures
            (match result {
                Ok(info) => Ok::<(Seq<EntryView>, u64, bool), BlockstoreError>(
                    (entry_views(info.0@), info.1, info.2),
                ),
                Err(e) => Err(e),
            }) == slot_entries_info(self@, slot, start_index, allow_dead_slots),
    {
        let (completed_ranges, slot_meta) = match self.get_completed_ranges(slot, start_index) {
            Err(e) => {
                return Err(e);
            },
            Ok(found) => found,
        };
        if self.is_dead(slot) && !allow_dead_slots {
            return Err(BlockstoreError::DeadSlot);
        }
        let count: usize = completed_ranges.len();
        if count == 0 {
            let none: Vec<Entry> = Vec::new();
            assert(entry_views(none@) =~= Seq::empty());
            let is_full = match slot_meta {
                Some(meta) => meta.is_full(),
                None => false,
            };
            return Ok((none, 0, is_full));
        }
        let ghost ranges = completed_ranges@;
        let meta = match slot_meta {
            Some(meta) => meta,
            None => {
                assert(false);
                SlotMeta::new_orphan(slot)
            },
        };
        proof {
            lemma_ranges_above_start(
                self@.ledger,
                slot,
                start_index,
                (self@.ledger.meta[slot].consumed as u32) as int,
            );
        }
        let num_shreds: u64 = completed_ranges[count - 1].1 as u64 - start_index + 1;
        let mut entries: Vec<Entry> = Vec::new();
        let mut i: usize = 0;
        assert(ranges.take(0) =~= Seq::empty());
        assert(entry_views(entries@) =~= Seq::empty());
        while i < count
            invariant
                0 <= i <= count,
                count == ranges.len(),
                ranges == completed_ranges@,
                ranges == slot_ranges(self@.ledger, slot, start_index),
                !cleaned_up(self@, slot),
                !(dead(self@.ledger, slot) && !allow_dead_slots),
                runs_readable(self@.ledger, slot, ranges),
                ranges_entries(self@.ledger, slot, ranges.take(i as int)) == Ok::<
                    Seq<EntryView>,
                    InvalidShredData,
                >(entry_views(entries@)),
            decreases count - i,
        {
            let range = completed_ranges[i];
            proof {
                assert(ranges[i as int].0 <= ranges[i as int].1);
                assert(ranges.take(i + 1).drop_last() =~= ranges.take(i as int));
                assert(ranges.take(i + 1).last() == range);
            }
            match self.get_entries_in_data_block(slot, range.0, range.1, Some(&meta)) {
                Err(e) => {
                    proof {
                        lemma_ranges_entries_err(self@.ledger, slot, ranges, i + 1);
                    }
                    return Err(e);
                },
                Ok(found) => {
                    append_entries(&mut entries, found);
                },
            }
            i += 1;
        }
        assert(ranges.take(count as int) =~= ranges);
        Ok((entries, num_shreds, meta.is_full()))
    }

    /// The entries of a slot from shred `shred_start_index` on.
    pub fn get_slot_entries(&self, slot: Slot, shred_start_index: u64) -> (result: Result<
        Vec<Entry>,
    >)
        requires
            slot_readable(self@, slot, shred_start_index, false),
        ensures
            (match result {
                Ok(entries) => Ok::<Seq<EntryView>, BlockstoreError>(entry_views(entries@)),
                Err(e) => Err(e),
            }) == slot_entries(self@, slot, shred_start_index),
    {
        match self.get_slot_entries_with_shred_info(slot, shred_start_index, false) {
            Ok(info) => Ok(info.0),
            Err(e) => Err(e),
        }
    }

    /// The entries of those runs of a slot, from shred `start_index` on, that can be read. None
    /// for a slot that has been purged.
    pub fn get_any_valid_slot_entries(&self, slot: Slot, start_index: u64) -> (result: Vec<Entry>)
        requires
            slot_readable(self@, slot, start_index, true),
        ensures
            entry_views(result@) == if cleaned_up(self@, slot) {
                Seq::empty()
            } else {
                valid_ranges_entries(
                    self@.ledger,
                    slot,
                    slot_ranges(self@.ledger, slot, start_index),
                )
            },
    {
        let mut entries: Vec<Entry> = Vec::new();
        assert(entry_views(entries@) =~= Seq::empty());
        let (completed_ranges, slot_meta) = match self.get_completed_ranges(slot, start_index) {
            Err(_) => {
                return entries;
            },
            Ok(found) => found,
        };
        let count: usize = completed_ranges.len();
        let ghost ranges = completed_ranges@;
        if count == 0 {
            return entries;
        }
        let meta = match slot_meta {
            Some(meta) => meta,
            None => {
                assert(false);
                SlotMeta::new_orphan(slot)
            },
        };
        let mut i: usize = 0;
        assert(ranges.take(0) =~= Seq::empty());
        while i < count
            invariant
                0 <= i <= count,
                count == ranges.len(),
                ranges == completed_ranges@,
                runs_readable(self@.ledger, slot, ranges),
                entry_views(entries@) == valid_ranges_entries(
                    self@.ledger,
                    slot,
                    ranges.take(i as int),
                ),
            decreases count - i,
        {
            let range = completed_ranges[i];
            proof {
                assert(ranges[i as int].0 <= ranges[i as int].1);
                assert(ranges.take(i + 1).drop_last() =~= ranges.take(i as int));
                assert(ranges.take(i + 1).last() == range);
            }
            match self.get_entries_in_data_block(slot, range.0, range.1, Some(&meta)) {
                Err(_) => {},
                Ok(found) => {
                    append_entries(&mut entries, found);
                },
            }
            i += 1;
        }
        assert(ranges.take(count as int) =~= ranges);
        entries
    }
}

/// The low 32 bits.
pub fn truncate_u64(x: u64) -> (result: u32)
    ensures
        result == x as u32,
{
    #[verifier::truncate]
    (x as u32)
}

proof fn lemma_ranges_bounds(start: int, ends: Set<u32>, n: int)
    requires
        0 <= start,
        0 <= n <= u32::MAX + 1,
    ensures
        forall|i: int|
            0 <= i < data_ranges(start, ends, n).len() ==> {
                let r = #[trigger] data_ranges(start, ends, n)[i];
                &&& start <= r.0 <= r.1 < n
                &&& ends.contains(r.1)
            },
    decreases n,
{
    if n > start && n > 0 {
        lemma_ranges_bounds(start, ends, n - 1);
        lemma_run_start_bounded(ends, n - 1);
        let earlier = data_ranges(start, ends, n - 1);
        let all = data_ranges(start, ends, n);
        assert forall|i: int| 0 <= i < all.len() implies {
            let r = #[trigger] all[i];
            &&& start <= r.0 <= r.1 < n
            &&& ends.contains(r.1)
        } by {
            if i < earlier.len() {
                assert(all[i] == earlier[i]);
            }
        }
    }
}

proof fn lemma_ranges_above_start(ledger: LedgerView, slot: Slot, start_index: u64, n: int)
    requires
        ledger.meta.contains_key(slot),
        n == (ledger.meta[slot].consumed as u32) as int,
        ranges_valid(ledger, slot, start_index),
        slot_ranges(ledger, slot, start_index).len() > 0,
    ensures
        start_index <= slot_ranges(ledger, slot, start_index).last().1,
{
    let ranges = slot_ranges(ledger, slot, start_index);
    lemma_ranges_bounds(
        (start_index as u32) as int,
        ledger.meta[slot].completed_data_indexes,
        n,
    );
    let r = ranges[ranges.len() - 1];
    assert((start_index as u32) <= r.1);
}

/// No shred is missing among those that are there. Where all can be read, so can the last.
proof fn lemma_shreds_there(ledger: LedgerView, slot: Slot, start: u32, n: int)
    requires
        0 <= n,
        start + n <= u32::MAX + 1,
        forall|i: u32|
            start <= i < start + n ==> #[trigger] ledger.data_shreds.contains_key(
                SlotIndex { slot, index: i as u64 },
            ),
    ensures
        shreds_from(ledger, slot, start as int, n) != Err::<Seq<ShredView>, InvalidShredData>(
            InvalidShredData::Missing,
        ),
        n > 0 && shreds_from(ledger, slot, start as int, n) is Ok ==> parse_shred(
            ledger.data_shreds[SlotIndex { slot, index: (start + n - 1) as u64 }],
        ) is Some,
    decreases n,
{
    if n > 0 {
        lemma_shreds_there(ledger, slot, start, n - 1);
        let i = (start + n - 1) as u32;
        assert(ledger.data_shreds.contains_key(SlotIndex { slot, index: i as u64 }));
    }
}

/// The entries of every slot of a consistent ledger whose ends of runs are marked can be asked
/// for, from any shred within its consecutive ones.
pub proof fn law_consistent_ledger_is_readable(
    store: BlockstoreView,
    slot: Slot,
    start_index: u64,
    allow_dead_slots: bool,
)
    requires
        consistent(store.ledger),
        ends_marked(store.ledger),
        store.ledger.meta.contains_key(slot) ==> start_index <= store.ledger.meta[slot].consumed,
    ensures
        slot_readable(store, slot, start_index, allow_dead_slots),
{
    let ledger = store.ledger;
    if ledger.meta.contains_key(slot) {
        let meta = ledger.meta[slot];
        let present = stored_in(ledger, slot);
        assert(meta_agrees(meta, present));
        assert(meta.consumed <= u32::MAX) by {
            if meta.consumed > u32::MAX {
                let i = u32::MAX as u64;
                assert(present(i));
                assert(ledger.data_shreds.contains_key(SlotIndex { slot, index: i }));
            }
        }
        if meta.completed_data_indexes.contains(meta.consumed as u32) {
            assert(present((meta.consumed as u32) as u64));
        }
        let ranges = slot_ranges(ledger, slot, start_index);
        lemma_ranges_bounds(
            (start_index as u32) as int,
            meta.completed_data_indexes,
            meta.consumed as int,
        );
        assert forall|i: int| 0 <= i < ranges.len() implies (#[trigger] ranges[i]).0 <= ranges[i].1
            && run_readable(ledger, slot, ranges[i].0, ranges[i].1, true) by {
            let r = ranges[i];
            assert forall|j: u32| r.0 <= j <= r.1 implies #[trigger] ledger.data_shreds.contains_key(
                SlotIndex { slot, index: j as u64 },
            ) by {
                assert(present(j as u64));
            }
            lemma_shreds_there(ledger, slot, r.0, r.1 - r.0 + 1);
            assert(ledger.data_shreds.contains_key(SlotIndex { slot, index: r.1 as u64 }));
            assert(ledger.meta[slot].completed_data_indexes.contains(r.1));
        }
    }
}

} // verus!
