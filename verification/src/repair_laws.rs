//! Which data shreds of a slot are asked for again.

use vstd::prelude::*;
use crate::column::{ColumnKey, SlotIndex};
use crate::repair::{follows_directly, lists_missing, missing_and_overdue, overdue, ticks_since};
use crate::types::Slot;

verus! {

/// The tick that a data shred was made in, as its flags note it, is at least 16 ticks ago, at 160
/// ticks in a second.
pub open spec fn is_late(bytes: Seq<u8>, first_timestamp: u64, now: u64) -> bool {
    160 * (now - first_timestamp) / 1000 >= (bytes[85] & 0x3f) + 16
}

/// The key is that of the first data shred behind an index of a slot.
pub open spec fn is_next(data: Map<SlotIndex, Seq<u8>>, slot: Slot, i: u64, k: SlotIndex) -> bool {
    &&& data.contains_key(k)
    &&& k.slot > slot || (k.slot == slot && k.index > i)
    &&& forall|j: SlotIndex| #[trigger]
        data.contains_key(j) && (j.slot > slot || (j.slot == slot && j.index > i)) ==> j.slot
            > k.slot || (j.slot == k.slot && j.index >= k.index)
}

/// An index of a slot is to be asked for: there is no shred of it, and those that came from
/// `start` on, up to the first one behind it, are late.
pub open spec fn to_be_repaired(
    data: Map<SlotIndex, Seq<u8>>,
    slot: Slot,
    start: u64,
    end: u64,
    first_timestamp: u64,
    now: u64,
    i: u64,
) -> bool {
    &&& start <= i < end
    &&& !data.contains_key(SlotIndex { slot, index: i })
    &&& forall|k: SlotIndex| #[trigger]
        data.contains_key(k) && k.slot == slot && start <= k.index < i ==> is_late(
            data[k],
            first_timestamp,
            now,
        )
    &&& forall|k: SlotIndex| #[trigger]
        is_next(data, slot, i, k) ==> is_late(data[k], first_timestamp, now)
}

proof fn lemma_to_be_repaired(
    data: Map<SlotIndex, Seq<u8>>,
    slot: Slot,
    start: u64,
    end: u64,
    first_timestamp: u64,
    now: u64,
    i: u64,
)
    ensures
        missing_and_overdue(data, slot, start, end, ticks_since(now, first_timestamp), i)
            <==> to_be_repaired(data, slot, start, end, first_timestamp, now, i),
{
    let ticks = ticks_since(now, first_timestamp);
    let from = SlotIndex { slot, index: start };
    let at = SlotIndex { slot, index: i };
    assert forall|k: SlotIndex| #[trigger] data.contains_key(k) implies overdue(data[k], ticks)
        == is_late(data[k], first_timestamp, now) by {
    }
    if missing_and_overdue(data, slot, start, end, ticks, i) {
        assert forall|k: SlotIndex| #[trigger]
            data.contains_key(k) && k.slot == slot && start <= k.index < i implies is_late(
            data[k],
            first_timestamp,
            now,
        ) by {
            assert(!k.before(from) && k.before(at));
        }
        assert forall|k: SlotIndex| #[trigger] is_next(data, slot, i, k) implies is_late(
            data[k],
            first_timestamp,
            now,
        ) by {
            assert(data.contains_key(k) && !k.before(from));
            assert(follows_directly(data, slot, i, k));
        }
    }
    if to_be_repaired(data, slot, start, end, first_timestamp, now, i) {
        assert forall|k: SlotIndex| #[trigger]
            data.contains_key(k) && !k.before(from) && (k.before(at) || follows_directly(
                data,
                slot,
                i,
                k,
            )) implies overdue(data[k], ticks) by {
            if !k.before(at) {
                SlotIndex::lemma_total(k, at);
                assert(k != at);
                assert(is_next(data, slot, i, k)) by {
                    assert forall|j: SlotIndex| #[trigger]
                        data.contains_key(j) && (j.slot > slot || (j.slot == slot && j.index
                            > i)) implies j.slot > k.slot || (j.slot == k.slot && j.index
                        >= k.index) by {
                        assert(at.before(j));
                        assert(!j.before(k));
                    }
                }
            }
        }
    }
}

/// The listed indexes are those that are to be asked for, in increasing order, from the lowest on,
/// as many as the limit allows. No index is listed behind a shred that is not late yet, nor right
/// before one.
pub proof fn law_missing_shreds_are_listed(
    data: Map<SlotIndex, Seq<u8>>,
    slot: Slot,
    start: u64,
    end: u64,
    first_timestamp: u64,
    now: u64,
    limit: usize,
    result: Seq<u64>,
)
    requires
        lists_missing(
            data,
            slot,
            start,
            end,
            ticks_since(now, first_timestamp),
            limit,
            result,
        ),
    ensures
        result.len() <= limit,
        forall|x: int, y: int|
            0 <= x < y < result.len() ==> #[trigger] result[x] < #[trigger] result[y],
        forall|x: int|
            0 <= x < result.len() ==> to_be_repaired(
                data,
                slot,
                start,
                end,
                first_timestamp,
                now,
                #[trigger] result[x],
            ),
        forall|i: u64| #[trigger]
            to_be_repaired(data, slot, start, end, first_timestamp, now, i) ==> result.contains(i)
                || (result.len() == limit && forall|x: int|
                0 <= x < result.len() ==> #[trigger] result[x] < i),
        forall|x: int, k: SlotIndex|
            0 <= x < result.len() && #[trigger] data.contains_key(k) && k.slot == slot && k.index >= start
                && !is_late(data[k], first_timestamp, now) ==> #[trigger] result[x] < k.index
                && exists|m: u64|
                result[x] < m < k.index && #[trigger] data.contains_key(
                    SlotIndex { slot, index: m },
                ),
{
    let ticks = ticks_since(now, first_timestamp);
    assert forall|x: int| 0 <= x < result.len() implies to_be_repaired(
        data,
        slot,
        start,
        end,
        first_timestamp,
        now,
        #[trigger] result[x],
    ) by {
        assert(result.contains(result[x]));
        lemma_to_be_repaired(data, slot, start, end, first_timestamp, now, result[x]);
    }
    assert forall|i: u64| #[trigger]
        to_be_repaired(data, slot, start, end, first_timestamp, now, i) implies result.contains(i)
        || (result.len() == limit && forall|x: int|
        0 <= x < result.len() ==> #[trigger] result[x] < i) by {
        lemma_to_be_repaired(data, slot, start, end, first_timestamp, now, i);
        assert(missing_and_overdue(data, slot, start, end, ticks, i));
        assert forall|x: int| 0 <= x < result.len() && !result.contains(i) implies
            #[trigger] result[x] < i by {
            assert(result.contains(result[x]));
        }
    }
    assert forall|x: int, k: SlotIndex|
        0 <= x < result.len() && #[trigger] data.contains_key(k) && k.slot == slot && k.index >= start
            && !is_late(data[k], first_timestamp, now) implies #[trigger] result[x] < k.index
        && exists|m: u64|
        result[x] < m < k.index && #[trigger] data.contains_key(SlotIndex { slot, index: m }) by {
        let i = result[x];
        assert(to_be_repaired(data, slot, start, end, first_timestamp, now, i));
        assert(k == SlotIndex { slot, index: k.index });
        assert(i < k.index);
        assert(!is_next(data, slot, i, k));
        let j = choose|j: SlotIndex| #[trigger]
            data.contains_key(j) && (j.slot > slot || (j.slot == slot && j.index > i)) && !(j.slot
                > k.slot || (j.slot == k.slot && j.index >= k.index));
        assert(j == SlotIndex { slot, index: j.index });
        assert(data.contains_key(SlotIndex { slot, index: j.index }));
    }
}

/// A listing with a lower limit is the beginning of one with a higher limit.
pub proof fn law_limit_cuts_the_listing(
    data: Map<SlotIndex, Seq<u8>>,
    slot: Slot,
    start: u64,
    end: u64,
    ticks: int,
    low: usize,
    high: usize,
    short: Seq<u64>,
    long: Seq<u64>,
)
    requires
        low <= high,
        lists_missing(data, slot, start, end, ticks, low, short),
        lists_missing(data, slot, start, end, ticks, high, long),
    ensures
        short.len() <= long.len(),
        short == long.take(short.len() as int),
        short.len() < long.len() ==> short.len() == low,
{
    lemma_short_is_first(data, slot, start, end, ticks, low, high, short, long, short.len());
    if short.len() < long.len() && short.len() < low {
        let i = long[short.len() as int];
        assert(long.contains(i));
        assert(missing_and_overdue(data, slot, start, end, ticks, i));
        assert(short.contains(i));
        let x = choose|x: int| 0 <= x < short.len() && short[x] == i;
        assert(long[x] < i);
    }
    assert(short =~= long.take(short.len() as int));
}

proof fn lemma_short_is_first(
    data: Map<SlotIndex, Seq<u8>>,
    slot: Slot,
    start: u64,
    end: u64,
    ticks: int,
    low: usize,
    high: usize,
    short: Seq<u64>,
    long: Seq<u64>,
    n: nat,
)
    requires
        low <= high,
        n <= short.len(),
        lists_missing(data, slot, start, end, ticks, low, short),
        lists_missing(data, slot, start, end, ticks, high, long),
    ensures
        n <= long.len(),
        forall|x: int| 0 <= x < n ==> #[trigger] short[x] == long[x],
    decreases n,
{
    if n > 0 {
        lemma_short_is_first(
            data,
            slot,
            start,
            end,
            ticks,
            low,
            high,
            short,
            long,
            (n - 1) as nat,
        );
        let m = n - 1;
        let i = short[m];
        assert(short.contains(i));
        assert(missing_and_overdue(data, slot, start, end, ticks, i));
        if !long.contains(i) {
            // Then the longer listing is full of lower indexes, which the shorter one has too.
            assert(long.len() == high);
            let j = long[m];
            assert(long.contains(j));
            assert(j < i);
            assert(missing_and_overdue(data, slot, start, end, ticks, j));
            if short.contains(j) {
                let x = choose|x: int| 0 <= x < short.len() && short[x] == j;
                assert(x < m);
                assert(long[x] == j);
            } else {
                assert(i < j);
            }
        } else {
            let y = choose|y: int| 0 <= y < long.len() && long[y] == i;
            if y < m {
                assert(short[y] == long[y]);
            } else if y > m {
                let j = long[m];
                assert(long.contains(j));
                assert(j < i);
                assert(missing_and_overdue(data, slot, start, end, ticks, j));
                if short.contains(j) {
                    let x = choose|x: int| 0 <= x < short.len() && short[x] == j;
                    assert(x < m);
                    assert(long[x] == j);
                } else {
                    assert(i < j);
                }
            }
        }
    }
}

} // verus!
