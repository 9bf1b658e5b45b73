//! Finding the data shreds of a slot that are missing.

use vstd::prelude::*;
use crate::blockstore::Blockstore;
use crate::column::{increasing, ordered_keys, orders, splits_at, ColumnKey, SlotIndex};
use crate::shred::SHRED_TICK_REFERENCE_MASK;
use crate::slot_update::DEFAULT_TICKS_PER_SECOND;
use crate::types::Slot;

verus! {

/// How many ticks a shred may be late.
pub const MAX_TURBINE_DELAY_IN_TICKS: u64 = 16;

/// Where the flags stand in a data shred.
pub const OFFSET_OF_DATA_FLAGS: usize = 85;

/// The tick in which a stored data shred was made.
pub open spec fn tick_of(bytes: Seq<u8>) -> u8 {
    bytes[OFFSET_OF_DATA_FLAGS as int] & SHRED_TICK_REFERENCE_MASK
}

/// How many ticks have passed since the first shred of a slot would have come.
pub open spec fn ticks_since(now: u64, first_timestamp: u64) -> int {
    DEFAULT_TICKS_PER_SECOND * (now - first_timestamp) / 1000
}

/// A shred that follows the stored one directly has been late for long enough.
pub open spec fn overdue(bytes: Seq<u8>, ticks: int) -> bool {
    ticks >= tick_of(bytes) + MAX_TURBINE_DELAY_IN_TICKS
}

/// No data shred is stored between the index `i` of `slot` and the key `k`.
pub open spec fn follows_directly(
    data_shreds: Map<SlotIndex, Seq<u8>>,
    slot: Slot,
    i: u64,
    k: SlotIndex,
) -> bool {
    forall|j: SlotIndex| #[trigger]
        data_shreds.contains_key(j) && (SlotIndex { slot, index: i }).before(j) ==> !j.before(k)
}

/// The index `i` from `start` up to `end`, excluded, is missing, and every stored shred from
/// `start` up to the one that follows `i` is overdue.
pub open spec fn missing_and_overdue(
    data_shreds: Map<SlotIndex, Seq<u8>>,
    slot: Slot,
    start: u64,
    end: u64,
    ticks: int,
    i: u64,
) -> bool {
    let from = SlotIndex { slot, index: start };
    let at = SlotIndex { slot, index: i };
    &&& start <= i < end
    &&& !data_shreds.contains_key(at)
    &&& forall|k: SlotIndex| #[trigger]
        data_shreds.contains_key(k) && !k.before(from) && (k.before(at) || follows_directly(
            data_shreds,
            slot,
            i,
            k,
        )) ==> overdue(data_shreds[k], ticks)
}

/// `result` lists the first `max_missing` indexes that are missing and overdue, in order.
pub open spec fn lists_missing(
    data_shreds: Map<SlotIndex, Seq<u8>>,
    slot: Slot,
    start: u64,
    end: u64,
    ticks: int,
    max_missing: usize,
    result: Seq<u64>,
) -> bool {
    &&& increasing(result)
    &&& result.len() <= max_missing
    &&& forall|i: u64| #[trigger]
        result.contains(i) ==> missing_and_overdue(data_shreds, slot, start, end, ticks, i)
    &&& forall|i: u64| #[trigger]
        missing_and_overdue(data_shreds, slot, start, end, ticks, i) ==> result.contains(i) || (
        result.len() == max_missing && forall|j: u64| #[trigger] result.contains(j) ==> j < i)
}

/// Appends the indexes from `from` up to `to`, excluded, until there are `max_missing`.
fn push_missing(result: &mut Vec<u64>, from: u64, to: u64, max_missing: usize)
    requires
        old(result)@.len() < max_missing,
        increasing(old(result)@),
        forall|i: u64| #[trigger] old(result)@.contains(i) ==> i < from,
    ensures
        increasing(final(result)@),
        final(result)@.len() <= max_missing,
        forall|i: u64| #[trigger]
            final(result)@.contains(i) ==> old(result)@.contains(i) || from <= i < to,
        forall|i: u64| #[trigger] old(result)@.contains(i) ==> final(result)@.contains(i),
        forall|i: u64|
            #![trigger final(result)@.contains(i)]
            from <= i < to ==> final(result)@.contains(i) || (final(result)@.len() == max_missing
                && forall|j: u64| #[trigger] final(result)@.contains(j) ==> j < i),
{
    let ghost before = result@;
    let mut i: u64 = from;
    while i < to && result.len() < max_missing
        invariant
            from <= i,
            i <= to || i == from,
            result@.len() <= max_missing,
            increasing(result@),
            forall|j: u64| #[trigger] result@.contains(j) ==> j < i,
            forall|j: u64| #[trigger]
                result@.contains(j) <==> before.contains(j) || from <= j < i,
        decreases to - i,
    {
        let ghost so_far = result@;
        result.push(i);
        proof {
            let r = result@;
            assert(r[so_far.len() as int] == i);
            assert forall|a: int, b: int| 0 <= a < b < r.len() implies (#[trigger] r[a]).before(
                #[trigger] r[b],
            ) by {
                if b < so_far.len() {
                    assert(so_far[a].before(so_far[b]));
                } else {
                    assert(so_far.contains(so_far[a]));
                }
            }
            assert forall|j: u64| #[trigger] r.contains(j) <==> before.contains(j) || from <= j < i
                + 1 by {
                if r.contains(j) {
                    let a = choose|a: int| 0 <= a < r.len() && r[a] == j;
                    if a < so_far.len() {
                        assert(so_far[a] == j);
                        assert(so_far.contains(j));
                    }
                }
                if so_far.contains(j) {
                    let a = choose|a: int| 0 <= a < so_far.len() && so_far[a] == j;
                    assert(r[a] == j);
                }
                assert(so_far.contains(j) <==> before.contains(j) || from <= j < i);
            }
        }
        i += 1;
    }
}

/// The key is one of those of a slot from index `start` up to `end`, excluded, or the first
/// after them.
pub open spec fn in_reach(
    data: Map<SlotIndex, Seq<u8>>,
    slot: Slot,
    start: u64,
    end: u64,
    k: SlotIndex,
) -> bool {
    let from = SlotIndex { slot, index: start };
    &&& data.contains_key(k)
    &&& !k.before(from)
    &&& forall|j: SlotIndex| #[trigger]
        data.contains_key(j) && !j.before(from) && j.before(k) ==> j.slot == slot && j.index < end
}

/// The flags can be read of the data shreds of a slot from index `start` up to `end`, excluded,
/// and of the first after them.
pub open spec fn flags_readable(
    data: Map<SlotIndex, Seq<u8>>,
    slot: Slot,
    start: u64,
    end: u64,
) -> bool {
    forall|k: SlotIndex| #[trigger]
        in_reach(data, slot, start, end, k) ==> data[k].len() > OFFSET_OF_DATA_FLAGS
}

pub proof fn lemma_in_reach(
    data: Map<SlotIndex, Seq<u8>>,
    keys: Seq<SlotIndex>,
    slot: Slot,
    start: u64,
    end: u64,
    p0: int,
    p: int,
)
    requires
        orders(keys, data),
        splits_at(keys, SlotIndex { slot, index: start }, p0),
        p0 <= p < keys.len(),
        forall|a: int| p0 <= a < p ==> (#[trigger] keys[a]).slot == slot && keys[a].index < end,
    ensures
        in_reach(data, slot, start, end, keys[p]),
{
    let from = SlotIndex { slot, index: start };
    let k = keys[p];
    assert(keys.contains(k));
    assert forall|j: SlotIndex| #[trigger]
        data.contains_key(j) && !j.before(from) && j.before(k) implies j.slot == slot && j.index
        < end by {
        assert(keys.contains(j));
        let a = choose|a: int| 0 <= a < keys.len() && keys[a] == j;
        assert(a >= p0);
        if a > p {
            assert(keys[p].before(keys[a]));
        }
    }
}

impl Blockstore {
    /// The indexes from `start_index` up to `end_index`, excluded, of data shreds of a slot that
    /// are missing and overdue at time `now`, at most `max_missing` of them. Times are in
    /// milliseconds.
    pub fn find_missing_data_indexes(
        &self,
        slot: Slot,
        first_timestamp: u64,
        start_index: u64,
        end_index: u64,
        max_missing: usize,
        now: u64,
    ) -> (result: Vec<u64>)
        requires
            start_index < end_index && max_missing > 0 ==> first_timestamp <= now
                && DEFAULT_TICKS_PER_SECOND * (now - first_timestamp) <= u64::MAX
                && flags_readable(self@.ledger.data_shreds, slot, start_index, end_index),
        ensures
            lists_missing(
                self@.ledger.data_shreds,
                slot,
                start_index,
                end_index,
                ticks_since(now, first_timestamp),
                max_missing,
                result@,
            ),
    {
        self.find_missing_indexes(
            slot,
            first_timestamp,
            start_index,
            end_index,
            max_missing,
            now,
        )
    }

    fn find_missing_indexes(
        &self,
        slot: Slot,
        first_timestamp: u64,
        start_index: u64,
        end_index: u64,
        max_missing: usize,
        now: u64,
    ) -> (result: Vec<u64>)
        requires
            start_index < end_index && max_missing > 0 ==> first_timestamp <= now
                && DEFAULT_TICKS_PER_SECOND * (now - first_timestamp) <= u64::MAX
                && flags_readable(self@.ledger.data_shreds, slot, start_index, end_index),
        ensures
            lists_missing(
                self@.ledger.data_shreds,
                slot,
                start_index,
                end_index,
                ticks_since(now, first_timestamp),
                max_missing,
                result@,
            ),
    {
        let mut missing_indexes: Vec<u64> = Vec::new();
        if start_index >= end_index || max_missing == 0 {
            return missing_indexes;
        }
        let ghost data = self@.ledger.data_shreds;
        let ghost keys = ordered_keys(data);
        let ticks: u64 = DEFAULT_TICKS_PER_SECOND * (now - first_timestamp) / 1000;
        let ghost t = ticks_since(now, first_timestamp);
        let from = SlotIndex { slot, index: start_index };
        let n: usize = self.ledger.data_shreds.len();
        let p0: usize = self.ledger.data_shreds.lower_bound(&from);
        let mut p: usize = p0;
        let mut prev_index: u64 = start_index;
        loop
            invariant
                data == self@.ledger.data_shreds,
                keys == ordered_keys(data),
                orders(keys, data),
                splits_at(keys, from, p0 as int),
                from == (SlotIndex { slot, index: start_index }),
                n == keys.len(),
                p0 <= p <= n,
                ticks == t,
                t == ticks_since(now, first_timestamp),
                start_index < end_index,
                start_index <= prev_index <= end_index,
                p > p0 ==> keys[p - 1] == (SlotIndex { slot, index: (prev_index - 1) as u64 })
                    && prev_index > start_index,
                p == p0 ==> prev_index == start_index,
                forall|a: int|
                    p0 <= a < p ==> overdue(data[#[trigger] keys[a]], t) && keys[a].slot == slot
                        && keys[a].index < end_index,
                missing_indexes@.len() < max_missing,
                increasing(missing_indexes@),
                forall|i: u64| #[trigger]
                    missing_indexes@.contains(i) <==> start_index <= i < prev_index
                        && !data.contains_key(SlotIndex { slot, index: i }),
                flags_readable(data, slot, start_index, end_index),
            decreases n - p,
        {
            let ghost before = missing_indexes@;
            if p >= n {
                push_missing(&mut missing_indexes, prev_index, end_index, max_missing);
                proof {
                    assert forall|i: u64| #[trigger]
                        missing_indexes@.contains(i) implies missing_and_overdue(
                        data,
                        slot,
                        start_index,
                        end_index,
                        t,
                        i,
                    ) by {
                        lemma_reported(
                            data,
                            keys,
                            slot,
                            start_index,
                            end_index,
                            t,
                            p0 as int,
                            p as int,
                            i,
                        );
                    }
                    assert forall|i: u64| #[trigger]
                        missing_and_overdue(
                            data,
                            slot,
                            start_index,
                            end_index,
                            t,
                            i,
                        ) implies missing_indexes@.contains(i) || (missing_indexes@.len()
                        == max_missing && forall|j: u64| #[trigger]
                        missing_indexes@.contains(j) ==> j < i) by {
                        if i < prev_index {
                            assert(before.contains(i));
                        }
                    }
                }
                return missing_indexes;
            }
            let key = self.ledger.data_shreds.key_at(p);
            let value = self.ledger.data_shreds.value_at(p);
            proof {
                lemma_in_reach(data, keys, slot, start_index, end_index, p0 as int, p as int);
                assert(!keys[p as int].before(from));
                if p > p0 {
                    assert(keys[p - 1].before(keys[p as int]));
                }
                assert(prev_index <= key.index || key.slot > slot);
            }
            let current_index: u64 = if key.slot > slot {
                end_index
            } else {
                key.index
            };
            let upper_index: u64 = if current_index < end_index {
                current_index
            } else {
                end_index
            };
            let flags: u8 = value[OFFSET_OF_DATA_FLAGS];
            let reference_tick: u64 = (flags & SHRED_TICK_REFERENCE_MASK) as u64;
            if ticks < reference_tick + MAX_TURBINE_DELAY_IN_TICKS {
                proof {
                    assert(!overdue(data[key], t));
                    assert forall|i: u64| #[trigger]
                        missing_indexes@.contains(i) implies missing_and_overdue(
                        data,
                        slot,
                        start_index,
                        end_index,
                        t,
                        i,
                    ) by {
                        lemma_reported(
                            data,
                            keys,
                            slot,
                            start_index,
                            end_index,
                            t,
                            p0 as int,
                            p as int,
                            i,
                        );
                    }
                    assert forall|i: u64| #[trigger]
                        missing_and_overdue(
                            data,
                            slot,
                            start_index,
                            end_index,
                            t,
                            i,
                        ) implies missing_indexes@.contains(i) by {
                        if i >= prev_index {
                            lemma_next_key(data, keys, slot, p0 as int, p as int, prev_index, i);
                            assert(data.contains_key(key) && !key.before(from));
                        }
                    }
                }
                return missing_indexes;
            }
            if prev_index < upper_index {
                push_missing(&mut missing_indexes, prev_index, upper_index, max_missing);
            }
            proof {
                assert(overdue(data[keys[p as int]], t));
                assert forall|i: u64| prev_index <= i < upper_index implies
                    !#[trigger] data.contains_key(SlotIndex { slot, index: i }) by {
                    lemma_gap(data, keys, slot, p0 as int, p as int, prev_index, i);
                }
            }
            let ghost after = missing_indexes@;
            if missing_indexes.len() == max_missing || key.slot > slot || current_index
                >= end_index {
                proof {
                    assert forall|i: u64| #[trigger]
                        missing_indexes@.contains(i) implies missing_and_overdue(
                        data,
                        slot,
                        start_index,
                        end_index,
                        t,
                        i,
                    ) by {
                        lemma_reported(
                            data,
                            keys,
                            slot,
                            start_index,
                            end_index,
                            t,
                            p0 as int,
                            p + 1,
                            i,
                        );
                    }
                    assert forall|i: u64| #[trigger]
                        missing_and_overdue(
                            data,
                            slot,
                            start_index,
                            end_index,
                            t,
                            i,
                        ) implies missing_indexes@.contains(i) || (missing_indexes@.len()
                        == max_missing && forall|j: u64| #[trigger]
                        missing_indexes@.contains(j) ==> j < i) by {
                        if i < prev_index {
                            assert(before.contains(i));
                        }
                    }
                }
                return missing_indexes;
            }
            proof {
                assert(key.slot == slot);
                assert(data.contains_key(keys[p as int]));
                assert forall|i: u64| #[trigger] missing_indexes@.contains(i) <==> start_index <= i
                    < current_index + 1 && !data.contains_key(SlotIndex { slot, index: i }) by {
                    if start_index <= i < prev_index {
                        assert(before.contains(i) <==> !data.contains_key(
                            SlotIndex { slot, index: i },
                        ));
                    }
                    if i == current_index {
                        assert(SlotIndex { slot, index: i } == key);
                    }
                    if before.contains(i) {
                        assert(after.contains(i));
                    }
                }
            }
            prev_index = current_index + 1;
            p = p + 1;
        }
    }
}

/// Every index below the key at `p` that is missing is missing and overdue.
proof fn lemma_reported(
    data: Map<SlotIndex, Seq<u8>>,
    keys: Seq<SlotIndex>,
    slot: Slot,
    start: u64,
    end: u64,
    ticks: int,
    p0: int,
    p: int,
    i: u64,
)
    requires
        orders(keys, data),
        splits_at(keys, SlotIndex { slot, index: start }, p0),
        p0 <= p <= keys.len(),
        forall|a: int| p0 <= a < p ==> overdue(data[#[trigger] keys[a]], ticks),
        start <= i < end,
        !data.contains_key(SlotIndex { slot, index: i }),
        p == keys.len() || (p > p0 && (SlotIndex { slot, index: i }).before(keys[p - 1])),
    ensures
        missing_and_overdue(data, slot, start, end, ticks, i),
{
    let from = SlotIndex { slot, index: start };
    let at = SlotIndex { slot, index: i };
    assert forall|k: SlotIndex| #[trigger]
        data.contains_key(k) && !k.before(from) && (k.before(at) || follows_directly(
            data,
            slot,
            i,
            k,
        )) implies overdue(data[k], ticks) by {
        assert(keys.contains(k));
        let a = choose|a: int| 0 <= a < keys.len() && keys[a] == k;
        if a < p0 {
            assert(keys[a].before(from));
        } else if a >= p {
            assert(keys.contains(keys[p - 1]));
            assert(data.contains_key(keys[p - 1]));
            assert(keys[p - 1].before(keys[a]));
        } else {
            assert(overdue(data[keys[a]], ticks));
        }
    }
}

/// The key at `p` follows every index from `prev` on, or comes before it.
proof fn lemma_next_key(
    data: Map<SlotIndex, Seq<u8>>,
    keys: Seq<SlotIndex>,
    slot: Slot,
    p0: int,
    p: int,
    prev: u64,
    i: u64,
)
    requires
        orders(keys, data),
        0 <= p0 <= p < keys.len(),
        p > p0 ==> keys[p - 1] == (SlotIndex { slot, index: (prev - 1) as u64 }) && prev > 0,
        p == p0 ==> forall|a: int|
            0 <= a < p ==> (#[trigger] keys[a]).before(SlotIndex { slot, index: prev }),
        prev <= i,
        !data.contains_key(SlotIndex { slot, index: i }),
    ensures
        data.contains_key(keys[p]),
        keys[p].before(SlotIndex { slot, index: i }) || follows_directly(data, slot, i, keys[p]),
{
    let at = SlotIndex { slot, index: i };
    assert(keys.contains(keys[p]));
    if !keys[p].before(at) {
        assert forall|j: SlotIndex| #[trigger]
            data.contains_key(j) && at.before(j) implies !j.before(keys[p]) by {
            assert(keys.contains(j));
            let a = choose|a: int| 0 <= a < keys.len() && keys[a] == j;
            if a < p {
                if p > p0 {
                    if a < p - 1 {
                        assert(keys[a].before(keys[p - 1]));
                    }
                } else {
                    assert(keys[a].before(SlotIndex { slot, index: prev }));
                }
            } else if a > p {
                assert(keys[p].before(keys[a]));
            }
        }
    }
}

/// There is no shred between `prev` and the key at `p`.
proof fn lemma_gap(
    data: Map<SlotIndex, Seq<u8>>,
    keys: Seq<SlotIndex>,
    slot: Slot,
    p0: int,
    p: int,
    prev: u64,
    i: u64,
)
    requires
        orders(keys, data),
        0 <= p0 <= p < keys.len(),
        p > p0 ==> keys[p - 1] == (SlotIndex { slot, index: (prev - 1) as u64 }) && prev > 0,
        p == p0 ==> forall|a: int|
            0 <= a < p ==> (#[trigger] keys[a]).before(SlotIndex { slot, index: prev }),
        prev <= i,
        (SlotIndex { slot, index: i }).before(keys[p]),
    ensures
        !data.contains_key(SlotIndex { slot, index: i }),
{
    let at = SlotIndex { slot, index: i };
    if data.contains_key(at) {
        assert(keys.contains(at));
        let a = choose|a: int| 0 <= a < keys.len() && keys[a] == at;
        if a < p {
            if p > p0 {
                if a < p - 1 {
                    assert(keys[a].before(keys[p - 1]));
                }
            } else {
                assert(keys[a].before(SlotIndex { slot, index: prev }));
            }
        } else if a > p {
            assert(keys[p].before(keys[a]));
        }
    }
}

} // verus!
