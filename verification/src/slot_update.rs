//! How a received data shred changes what is known of its slot.

use vstd::prelude::*;
use crate::column::{lists, ordered, splits_at, ColumnKey, KeySet};
use crate::meta::{count_present, ShredIndex, SlotMeta, SlotMetaView};
use crate::types::Slot;

verus! {

/// How many ticks a second has.
pub const DEFAULT_TICKS_PER_SECOND: u64 = 160;

/// The slot's parent is not known.
pub open spec fn orphaned(meta: SlotMetaView) -> bool {
    meta.parent_slot is None
}

/// Whether the slot's parent is not known.
pub fn is_orphan(meta: &SlotMeta) -> (result: bool)
    ensures
        result == orphaned(meta@),
{
    meta.parent_slot.is_none()
}

/// The model of a record that may be absent.
pub open spec fn optional_meta(meta: Option<SlotMeta>) -> Option<SlotMetaView> {
    match meta {
        Some(m) => Some(m@),
        None => None,
    }
}

/// The slot is full, and was not when it was read.
pub open spec fn newly_completed(meta: SlotMetaView, backup: Option<SlotMetaView>) -> bool {
    meta.is_full() && (backup is None || meta.consumed != backup->0.consumed)
}

/// Whether the slot is full, and was not when it was read.
pub fn is_newly_completed_slot(slot_meta: &SlotMeta, backup_slot_meta: &Option<SlotMeta>) -> (result:
    bool)
    ensures
        result == newly_completed(slot_meta@, optional_meta(*backup_slot_meta)),
{
    slot_meta.is_full() && match backup_slot_meta {
        None => true,
        Some(backup) => slot_meta.consumed != backup.consumed,
    }
}

/// The chain of consecutive shreds that starts at slot 0 has become longer.
pub open spec fn has_updates(meta: SlotMetaView, backup: Option<SlotMetaView>) -> bool {
    meta.is_connected && match backup {
        None => meta.consumed != 0,
        Some(old) => old.consumed != meta.consumed,
    }
}

/// Whether the chain of consecutive shreds that starts at slot 0 has become longer.
pub fn slot_has_updates(slot_meta: &SlotMeta, slot_meta_backup: &Option<SlotMeta>) -> (result: bool)
    ensures
        result == has_updates(slot_meta@, optional_meta(*slot_meta_backup)),
{
    slot_meta.is_connected && match slot_meta_backup {
        None => slot_meta.consumed != 0,
        Some(backup) => backup.consumed != slot_meta.consumed,
    }
}

/// Slot 0 is its own parent, as long as nothing above it is rooted.
pub open spec fn valid_write_to_slot_0(slot: Slot, parent: Slot, last_root: Slot) -> bool {
    slot == 0 && last_root == 0 && parent == 0
}

pub fn is_valid_write_to_slot_0(slot_to_write: u64, parent_slot: Slot, last_root: u64) -> (result:
    bool)
    ensures
        result == valid_write_to_slot_0(slot_to_write, parent_slot, last_root),
{
    slot_to_write == 0 && last_root == 0 && parent_slot == 0
}

/// A slot may chain to a parent below it that is not below the last root.
pub open spec fn valid_shred_slots(slot: Slot, parent: Slot, last_root: Slot) -> bool {
    valid_write_to_slot_0(slot, parent, last_root) || last_root <= parent < slot
}

/// Whether shreds of `slot` with the given parent may be inserted.
pub fn verify_shred_slots(slot: Slot, parent_slot: Slot, last_root: Slot) -> (result: bool)
    ensures
        result == valid_shred_slots(slot, parent_slot, last_root),
{
    if !is_valid_write_to_slot_0(slot, parent_slot, last_root) {
        if parent_slot >= slot {
            return false;
        }
        if parent_slot < last_root {
            return false;
        }
    }
    true
}

/// The first index at or after `from` that is not in `set`.
pub open spec fn first_missing(set: Set<u64>, from: u64) -> u64
    decreases u64::MAX - from,
{
    if set.contains(from) && from < u64::MAX {
        first_missing(set, (from + 1) as u64)
    } else {
        from
    }
}

/// The first index at or after `from` that is not present.
pub fn find_first_missing(index: &ShredIndex, from: u64) -> (result: u64)
    ensures
        result == first_missing(index@, from),
{
    let mut current: u64 = from;
    while current < u64::MAX && index.is_present(current)
        invariant
            from <= current,
            first_missing(index@, from) == first_missing(index@, current),
        decreases u64::MAX - current,
    {
        current += 1;
    }
    current
}

/// Where the run of entries that holds index `n` starts: after the last end below `n`.
pub open spec fn run_start(ends: Set<u32>, n: int) -> int
    decreases n,
{
    if n <= 0 {
        0
    } else if ends.contains((n - 1) as u32) {
        n
    } else {
        run_start(ends, n - 1)
    }
}

/// The first end of a run at or after `n`.
pub open spec fn run_end(ends: Set<u32>, n: int) -> Option<u32>
    decreases 0x1_0000_0000 - n,
{
    if n < 0 || n > u32::MAX {
        None
    } else if ends.contains(n as u32) {
        Some(n as u32)
    } else {
        run_end(ends, n + 1)
    }
}

/// Every index from `from` to `to`, included, is in `set`.
pub open spec fn all_present(set: Set<u64>, from: int, to: int) -> bool {
    forall|i: u64| from <= i <= to ==> #[trigger] set.contains(i)
}

/// The runs of entries that the shred at `index` completes: the run that it is in, and, where
/// it ends that run itself, the one after it. A run is complete when it has an end and every
/// shred of it has been received.
pub open spec fn completed_runs(
    ends_run: bool,
    index: u32,
    received: Set<u64>,
    ends: Set<u32>,
) -> Seq<(u32, u32)> {
    let start = run_start(ends, index as int);
    let own = if ends_run && all_present(received, start, index as int) {
        seq![(start as u32, index)]
    } else {
        Seq::empty()
    };
    let begin = if ends_run {
        index + 1
    } else {
        start
    };
    match run_end(ends, index + 1) {
        Some(end) => if all_present(received, begin, end as int) {
            own.push((begin as u32, end))
        } else {
            own
        },
        None => own,
    }
}

proof fn lemma_run_start(ends: Set<u32>, n: u32, p: int)
    requires
        lists(ordered(ends), ends),
        splits_at(ordered(ends), n, p),
    ensures
        p > 0 ==> run_start(ends, n as int) == ordered(ends)[p - 1] + 1,
        p == 0 ==> run_start(ends, n as int) == 0,
    decreases n,
{
    let s = ordered(ends);
    if n > 0 {
        let m = (n - 1) as u32;
        if ends.contains(m) {
            assert(s.contains(m));
            let i = choose|i: int| 0 <= i < s.len() && s[i] == m;
            assert(s[i].before(n));
            if i < p - 1 {
                assert(s[i].before(s[p - 1]));
                assert(s[p - 1].before(n));
            }
        } else {
            assert(splits_at(s, m, p)) by {
                assert forall|j: int| 0 <= j < p implies (#[trigger] s[j]).before(m) by {
                    assert(s[j].before(n));
                    if s[j] == m {
                        assert(s.contains(m));
                    }
                }
                assert forall|j: int| p <= j < s.len() implies !(#[trigger] s[j]).before(m) by {
                    assert(!s[j].before(n));
                }
            }
            lemma_run_start(ends, m, p);
        }
    } else {
        if p > 0 {
            assert(s[0].before(n));
        }
    }
}

proof fn lemma_run_end(ends: Set<u32>, n: u32, q: int)
    requires
        lists(ordered(ends), ends),
        splits_at(ordered(ends), n, q),
    ensures
        q < ordered(ends).len() ==> run_end(ends, n as int) == Some(ordered(ends)[q]),
        q == ordered(ends).len() ==> run_end(ends, n as int) is None,
    decreases u32::MAX - n,
{
    let s = ordered(ends);
    if ends.contains(n) {
        assert(s.contains(n));
        let i = choose|i: int| 0 <= i < s.len() && s[i] == n;
        assert(!s[i].before(n));
        assert(i >= q);
        if i > q {
            assert(s[q].before(s[i]));
            assert(!s[q].before(n));
        }
    } else if n < u32::MAX {
        let m = (n + 1) as u32;
        assert(splits_at(s, m, q)) by {
            assert forall|j: int| 0 <= j < q implies (#[trigger] s[j]).before(m) by {
                assert(s[j].before(n));
            }
            assert forall|j: int| q <= j < s.len() implies !(#[trigger] s[j]).before(m) by {
                assert(!s[j].before(n));
                if s[j] == n {
                    assert(s.contains(n));
                }
            }
        }
        lemma_run_end(ends, m, q);
    } else {
        assert(run_end(ends, n + 1) is None);
        if q < s.len() {
            assert(!s[q].before(n));
            assert(s.contains(s[q]));
        }
    }
}

proof fn lemma_count_full(set: Set<u64>, from: int, to: int)
    requires
        0 <= from <= to <= u64::MAX,
    ensures
        count_present(set, from, to) <= to - from,
        count_present(set, from, to) == to - from <==> all_present(set, from, to - 1),
    decreases to - from,
{
    if from < to {
        lemma_count_full(set, from, to - 1);
        let last = (to - 1) as u64;
        if count_present(set, from, to) == to - from {
            assert forall|i: u64| from <= i <= to - 1 implies #[trigger] set.contains(i) by {
                if i == last {
                    assert(set.contains(last));
                }
            }
        }
        if all_present(set, from, to - 1) {
            assert(set.contains(last));
        }
    }
}

fn run_is_present(received: &ShredIndex, begin: u32, end: u32) -> (result: bool)
    requires
        begin <= end,
    ensures
        result == all_present(received@, begin as int, end as int),
{
    let from: u64 = begin as u64;
    let to: u64 = end as u64 + 1;
    proof {
        lemma_count_full(received@, from as int, to as int);
    }
    received.present_in_bounds(from, to) as u64 == to - from
}

/// Notes that the shred at `new_shred_index` has come, and returns the runs of entries that it
/// completes, as inclusive ranges of indexes. Where the shred ends a run, its index joins
/// `completed_data_indexes`.
pub fn update_completed_data_indexes(
    is_last_in_data: bool,
    new_shred_index: u32,
    received_data_shreds: &ShredIndex,
    completed_data_indexes: &mut KeySet<u32>,
) -> (result: Vec<(u32, u32)>)
    requires
        new_shred_index < u32::MAX,
        !old(completed_data_indexes)@.contains(u32::MAX),
    ensures
        result@ == completed_runs(
            is_last_in_data,
            new_shred_index,
            received_data_shreds@,
            old(completed_data_indexes)@,
        ),
        final(completed_data_indexes)@ == if is_last_in_data {
            old(completed_data_indexes)@.insert(new_shred_index)
        } else {
            old(completed_data_indexes)@
        },
{
    let ghost ends = completed_data_indexes@;
    let p: usize = completed_data_indexes.lower_bound(&new_shred_index);
    proof {
        lemma_run_start(ends, new_shred_index, p as int);
    }
    let start: u32 = if p > 0 {
        let below: u32 = completed_data_indexes.at(p - 1);
        assert(ordered(ends)[p - 1].before(new_shred_index));
        below + 1
    } else {
        0
    };
    let q: usize = completed_data_indexes.lower_bound(&(new_shred_index + 1));
    proof {
        lemma_run_end(ends, (new_shred_index + 1) as u32, q as int);
    }
    let next: Option<u32> = if q < completed_data_indexes.len() {
        let above: u32 = completed_data_indexes.at(q);
        assert(!ordered(ends)[q as int].before((new_shred_index + 1) as u32));
        Some(above)
    } else {
        None
    };
    let mut result: Vec<(u32, u32)> = Vec::new();
    let mut begin: u32 = start;
    if is_last_in_data {
        completed_data_indexes.insert(new_shred_index);
        if run_is_present(received_data_shreds, start, new_shred_index) {
            result.push((start, new_shred_index));
        }
        begin = new_shred_index + 1;
    }
    if let Some(end) = next {
        if run_is_present(received_data_shreds, begin, end) {
            result.push((begin, end));
        }
    }
    assert(result@ =~= completed_runs(
        is_last_in_data,
        new_shred_index,
        received_data_shreds@,
        ends,
    ));
    result
}

/// How long after the start of its slot a shred was made, in milliseconds.
pub open spec fn elapsed_at_tick(reference_tick: u8) -> u64 {
    ((reference_tick * 1000) / DEFAULT_TICKS_PER_SECOND as int) as u64
}

/// What is known of a slot after the shred at `index` came.
pub open spec fn updated_meta(
    meta: SlotMetaView,
    is_last_in_slot: bool,
    is_last_in_data: bool,
    index: u32,
    new_consumed: u64,
    reference_tick: u8,
    now: u64,
) -> SlotMetaView {
    SlotMetaView {
        received: if index + 1 > meta.received {
            (index + 1) as u64
        } else {
            meta.received
        },
        first_shred_timestamp: if meta.received == 0 {
            (now - elapsed_at_tick(reference_tick)) as u64
        } else {
            meta.first_shred_timestamp
        },
        consumed: new_consumed,
        last_index: if is_last_in_slot && meta.last_index is None {
            Some(index as u64)
        } else {
            meta.last_index
        },
        completed_data_indexes: if is_last_in_slot || is_last_in_data {
            meta.completed_data_indexes.insert(index)
        } else {
            meta.completed_data_indexes
        },
        ..meta
    }
}

/// Notes that the shred at `index` has come at time `now`, in milliseconds, and returns the
/// runs of entries that it completes.
pub fn update_slot_meta(
    is_last_in_slot: bool,
    is_last_in_data: bool,
    slot_meta: &mut SlotMeta,
    index: u32,
    new_consumed: u64,
    reference_tick: u8,
    received_data_shreds: &ShredIndex,
    now: u64,
) -> (result: Vec<(u32, u32)>)
    requires
        index < u32::MAX,
        !old(slot_meta)@.completed_data_indexes.contains(u32::MAX),
        old(slot_meta)@.received == 0 ==> now >= elapsed_at_tick(reference_tick),
    ensures
        final(slot_meta)@ == updated_meta(
            old(slot_meta)@,
            is_last_in_slot,
            is_last_in_data,
            index,
            new_consumed,
            reference_tick,
            now,
        ),
        result@ == completed_runs(
            is_last_in_slot || is_last_in_data,
            index,
            received_data_shreds@,
            old(slot_meta)@.completed_data_indexes,
        ),
{
    let maybe_first_insert = slot_meta.received == 0;
    let height: u64 = index as u64 + 1;
    if height > slot_meta.received {
        slot_meta.received = height;
    }
    if maybe_first_insert && slot_meta.received > 0 {
        let slot_time_elapsed: u64 = reference_tick as u64 * 1000 / DEFAULT_TICKS_PER_SECOND;
        slot_meta.first_shred_timestamp = now - slot_time_elapsed;
    }
    slot_meta.consumed = new_consumed;
    if is_last_in_slot && slot_meta.last_index.is_none() {
        slot_meta.last_index = Some(index as u64);
    }
    let result = update_completed_data_indexes(
        is_last_in_slot || is_last_in_data,
        index,
        received_data_shreds,
        &mut slot_meta.completed_data_indexes,
    );
    assert(slot_meta@ =~= updated_meta(
        old(slot_meta)@,
        is_last_in_slot,
        is_last_in_data,
        index,
        new_consumed,
        reference_tick,
        now,
    ));
    result
}

} // verus!
