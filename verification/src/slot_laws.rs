//! What is collected of the columns of a slot, and of the slots that build on each other.

use vstd::prelude::*;
use crate::address_laws::lemma_selected_increasing;
use crate::column::{
    keys_at_or_above, keys_from, lemma_finite_orders, lemma_ordered, ordered_keys, ColumnKey,
    SlotIndex,
};
use crate::insertion::filled;
use crate::ledger::LedgerView;
use crate::meta::SlotMetaView;
use crate::roots::holds_shred;
use crate::shred::{parse_shred, ShredType, SHRED_PAYLOAD_SIZE};
use crate::slots::{
    children_walk, fork_walk, forks_walk, live_slots, next_slots_above, parsed_records,
    payloads_that_fit, slot_keys, slot_payloads, slot_records,
};
use crate::types::Slot;

verus! {

/// The shreds that are collected of a slot are exactly those that are kept for it from an index
/// on, each with its bytes, in the order of their indexes.
pub proof fn law_shreds_of_a_slot(column: Map<SlotIndex, Seq<u8>>, slot: Slot, index: u64)
    requires
        column.dom().finite(),
    ensures
        ({
            let records = slot_records(column, slot, index);
            &&& forall|x: int|
                0 <= x < records.len() ==> {
                    let k = (#[trigger] records[x]).0;
                    &&& column.contains_key(k)
                    &&& k.slot == slot
                    &&& k.index >= index
                    &&& records[x].1 == column[k]
                }
            &&& forall|x: int, y: int|
                0 <= x < y < records.len() ==> (#[trigger] records[x]).0.index < (
                #[trigger] records[y]).0.index
            &&& forall|k: SlotIndex| #[trigger]
                column.contains_key(k) && k.slot == slot && k.index >= index ==> exists|x: int|
                    0 <= x < records.len() && (#[trigger] records[x]).0 == k
        }),
{
    let keys = ordered_keys(column);
    let keep = |k: SlotIndex| k.slot == slot && k.index >= index;
    let own = slot_keys(column, slot, index);
    let records = slot_records(column, slot, index);
    lemma_finite_orders(column);
    lemma_selected_increasing(keys, keep);
    assert forall|x: int| 0 <= x < records.len() implies {
        let k = (#[trigger] records[x]).0;
        &&& column.contains_key(k)
        &&& k.slot == slot
        &&& k.index >= index
        &&& records[x].1 == column[k]
    } by {
        assert(own.contains(own[x]));
        assert(keys.contains(own[x]) && keep(own[x]));
    }
    assert forall|x: int, y: int| 0 <= x < y < records.len() implies (#[trigger] records[x]).0.index
        < (#[trigger] records[y]).0.index by {
        assert(own.contains(own[x]) && own.contains(own[y]));
        assert(keep(own[x]) && keep(own[y]));
        assert(own[x].before(own[y]));
    }
    assert forall|k: SlotIndex| #[trigger]
        column.contains_key(k) && k.slot == slot && k.index >= index implies exists|x: int|
        0 <= x < records.len() && (#[trigger] records[x]).0 == k by {
        assert(keys.contains(k) && keep(k));
        assert(own.contains(k));
        let x = choose|x: int| 0 <= x < own.len() && own[x] == k;
        assert(records[x].0 == k);
    }
}

/// Shreds that are read are those of the records, one for each and in their order; they are
/// refused only where one cannot be read.
pub proof fn law_records_are_parsed(records: Seq<(SlotIndex, Seq<u8>)>)
    ensures
        match parsed_records(records) {
            Some(shreds) => shreds.len() == records.len() && forall|x: int|
                0 <= x < records.len() ==> parse_shred(records[x].1) == Some(#[trigger] shreds[x]),
            None => exists|x: int|
                0 <= x < records.len() && parse_shred((#[trigger] records[x]).1) is None,
        },
{
}

/// The payloads of the data shreds that are there from index `from` up to `to`, excluded, one
/// after the other, each filled up with zeros to the length of a shred.
pub open spec fn payloads_between(
    data: Map<SlotIndex, Seq<u8>>,
    slot: Slot,
    from: int,
    to: int,
) -> Seq<u8>
    decreases to - from,
{
    if to <= from {
        Seq::empty()
    } else {
        let k = SlotIndex { slot, index: (to - 1) as u64 };
        payloads_between(data, slot, from, to - 1) + if data.contains_key(k) {
            full_length(data[k])
        } else {
            Seq::empty()
        }
    }
}

/// Bytes with zeros after them, up to the length of a shred.
pub open spec fn full_length(bytes: Seq<u8>) -> Seq<u8> {
    if bytes.len() >= SHRED_PAYLOAD_SIZE {
        bytes
    } else {
        bytes + Seq::new((SHRED_PAYLOAD_SIZE - bytes.len()) as nat, |i: int| 0u8)
    }
}

proof fn lemma_no_payloads(data: Map<SlotIndex, Seq<u8>>, slot: Slot, from: int, to: int)
    requires
        0 <= from,
        to <= u64::MAX,
        forall|i: u64| from <= i < to ==> !#[trigger] data.contains_key(
            SlotIndex { slot, index: i },
        ),
    ensures
        payloads_between(data, slot, from, to) == Seq::<u8>::empty(),
    decreases to - from,
{
    if from < to {
        lemma_no_payloads(data, slot, from, to - 1);
        assert(!data.contains_key(SlotIndex { slot, index: (to - 1) as u64 }));
        assert(payloads_between(data, slot, from, to) =~= Seq::<u8>::empty());
    }
}

proof fn lemma_payloads_joined(
    data: Map<SlotIndex, Seq<u8>>,
    slot: Slot,
    from: int,
    mid: int,
    to: int,
)
    requires
        from <= mid <= to,
    ensures
        payloads_between(data, slot, from, to) == payloads_between(data, slot, from, mid)
            + payloads_between(data, slot, mid, to),
    decreases to - mid,
{
    let a = payloads_between(data, slot, from, mid);
    if mid == to {
        assert(a + payloads_between(data, slot, mid, to) =~= a);
    } else {
        lemma_payloads_joined(data, slot, from, mid, to - 1);
        assert(payloads_between(data, slot, from, to) =~= a + payloads_between(
            data,
            slot,
            mid,
            to,
        ));
    }
}

/// The bytes that are given are the payloads of all data shreds that are there from `from` to the
/// last one that is told; and the next one, or another as long as the last, does not fit.
pub open spec fn fills_up(
    data: Map<SlotIndex, Seq<u8>>,
    slot: Slot,
    from: int,
    to: int,
    capacity: usize,
    given: (u64, Seq<u8>),
) -> bool {
    let last = SlotIndex { slot, index: given.0 };
    &&& from <= given.0 < to
    &&& data.contains_key(last)
    &&& given.1 == payloads_between(data, slot, from, given.0 + 1)
    &&& given.1.len() <= capacity
    &&& forall|i: u64|
        given.0 < i < to && #[trigger] data.contains_key(SlotIndex { slot, index: i })
            ==> first_left_out(data, slot, given.0, to, capacity, given.1)
}

/// What follows the last shred that was given does not fit.
pub open spec fn first_left_out(
    data: Map<SlotIndex, Seq<u8>>,
    slot: Slot,
    last: u64,
    to: int,
    capacity: usize,
    bytes: Seq<u8>,
) -> bool {
    ||| bytes.len() + full_length(data[SlotIndex { slot, index: last }]).len() > capacity
    ||| exists|i: u64|
        last < i < to && #[trigger] data.contains_key(SlotIndex { slot, index: i }) && bytes.len()
            + full_length(data[SlotIndex { slot, index: i }]).len() > capacity && is_first(
            data,
            slot,
            last + 1,
            i,
        )
}

proof fn lemma_payloads_that_fit(
    ledger: LedgerView,
    slot: Slot,
    first: int,
    from: int,
    to: int,
    capacity: usize,
    last: u64,
    bytes: Seq<u8>,
)
    requires
        0 <= first <= from,
        to <= u64::MAX,
        bytes.len() <= capacity,
        bytes == payloads_between(ledger.data_shreds, slot, first, from),
        (forall|i: u64|
            first <= i < from ==> !#[trigger] ledger.data_shreds.contains_key(
                SlotIndex { slot, index: i },
            )) ==> last == 0,
        (exists|i: u64|
            first <= i < from && #[trigger] ledger.data_shreds.contains_key(
                SlotIndex { slot, index: i },
            )) ==> first <= last < from && ledger.data_shreds.contains_key(
            SlotIndex { slot, index: last },
        ) && forall|i: u64| last < i < from ==> !#[trigger] ledger.data_shreds.contains_key(
            SlotIndex { slot, index: i },
        ),
    ensures
        ({
            let given = payloads_that_fit(ledger, slot, from, to, capacity, last, bytes);
            let data = ledger.data_shreds;
            ||| fills_up(data, slot, first, to, capacity, given)
            ||| from >= to && given == (last, bytes)
            ||| given == (0u64, Seq::<u8>::empty()) && none_fits(data, slot, first, to, capacity)
        }),
    decreases to - from,
{
    let data = ledger.data_shreds;
    let key = SlotIndex { slot, index: from as u64 };
    let given = payloads_that_fit(ledger, slot, from, to, capacity, last, bytes);
    if from < to {
        assert(filled(data[key]) =~= full_length(data[key]));
        lemma_payloads_joined(data, slot, first, from, from + 1);
        let some_before = exists|i: u64|
            first <= i < from && #[trigger] data.contains_key(SlotIndex { slot, index: i });
        if !some_before {
            lemma_no_payloads(data, slot, first, from);
        }
        if some_before {
            lemma_payloads_joined(data, slot, first, last + 1, from);
            lemma_no_payloads(data, slot, last + 1, from);
            assert(payloads_between(data, slot, first, last + 1) =~= bytes);
        }
        if !data.contains_key(key) {
            lemma_no_payloads(data, slot, from, from + 1);
            assert(payloads_between(data, slot, first, from + 1) =~= bytes);
            assert forall|i: u64| first <= i < from + 1 && #[trigger]
                data.contains_key(SlotIndex { slot, index: i }) implies i < from by {
            }
            lemma_payloads_that_fit(ledger, slot, first, from + 1, to, capacity, last, bytes);
            if from + 1 >= to && given == (last, bytes) {
                lemma_end(data, slot, first, to, capacity, last, bytes);
            }
        } else {
            let own = full_length(data[key]);
            let none: Seq<u8> = Seq::empty();
            assert(payloads_between(data, slot, from, from) =~= none);
            assert(payloads_between(data, slot, from, from + 1) =~= own);
            if bytes.len() + own.len() > capacity {
                if some_before {
                    assert(data.contains_key(SlotIndex { slot, index: from as u64 }));
                    assert(is_first(data, slot, last + 1, from as u64));
                    assert(first_left_out(data, slot, last, to, capacity, bytes));
                    assert(fills_up(data, slot, first, to, capacity, given));
                } else {
                    assert(bytes =~= none);
                    assert(is_first(data, slot, first, from as u64));
                    assert(none_fits(data, slot, first, to, capacity));
                }
            } else if bytes.len() + 2 * own.len() > capacity {
                assert(first_left_out(data, slot, from as u64, to, capacity, bytes + own));
                assert(fills_up(data, slot, first, to, capacity, given));
            } else {
                lemma_payloads_that_fit(
                    ledger,
                    slot,
                    first,
                    from + 1,
                    to,
                    capacity,
                    from as u64,
                    bytes + own,
                );
                if from + 1 >= to {
                    assert(given == (from as u64, bytes + own));
                    assert(fills_up(data, slot, first, to, capacity, given));
                }
            }
        }
    }
}

/// At the end of the range everything that is there was given.
proof fn lemma_end(
    data: Map<SlotIndex, Seq<u8>>,
    slot: Slot,
    first: int,
    to: int,
    capacity: usize,
    last: u64,
    bytes: Seq<u8>,
)
    requires
        0 <= first <= to <= u64::MAX,
        bytes.len() <= capacity,
        bytes == payloads_between(data, slot, first, to),
        (forall|i: u64|
            first <= i < to ==> !#[trigger] data.contains_key(SlotIndex { slot, index: i }))
            ==> last == 0,
        (exists|i: u64|
            first <= i < to && #[trigger] data.contains_key(SlotIndex { slot, index: i }))
            ==> first <= last < to && data.contains_key(SlotIndex { slot, index: last })
            && forall|i: u64|
            last < i < to ==> !#[trigger] data.contains_key(SlotIndex { slot, index: i }),
    ensures
        fills_up(data, slot, first, to, capacity, (last, bytes)) || ((last, bytes) == (
            0u64,
            Seq::<u8>::empty(),
        ) && none_fits(data, slot, first, to, capacity)),
{
    if exists|i: u64| first <= i < to && #[trigger] data.contains_key(SlotIndex { slot, index: i }) {
        lemma_payloads_joined(data, slot, first, last + 1, to);
        lemma_no_payloads(data, slot, last + 1, to);
        assert(payloads_between(data, slot, first, last + 1) =~= bytes);
    } else {
        lemma_no_payloads(data, slot, first, to);
    }
}

/// There is no data shred in a range, or the first does not fit.
pub open spec fn none_fits(
    data: Map<SlotIndex, Seq<u8>>,
    slot: Slot,
    from: int,
    to: int,
    capacity: usize,
) -> bool {
    (exists|i: u64| from <= i < to && #[trigger] data.contains_key(SlotIndex { slot, index: i }))
        ==> exists|i: u64|
        from <= i < to && #[trigger] data.contains_key(SlotIndex { slot, index: i })
            && full_length(data[SlotIndex { slot, index: i }]).len() > capacity && is_first(
            data,
            slot,
            from,
            i,
        )
}

/// No data shred is there from index `from` up to `i`, excluded.
pub open spec fn is_first(data: Map<SlotIndex, Seq<u8>>, slot: Slot, from: int, i: u64) -> bool {
    forall|j: u64| from <= j < i ==> !#[trigger] data.contains_key(SlotIndex { slot, index: j })
}

/// The payloads that are given of a slot are those of its data shreds from an index on, one after
/// the other, up to the one whose index is told, and no more than fit; they stop before the end of
/// the range only where no more fit. Of a slot that is not complete none are given.
pub proof fn law_payloads_of_a_slot(
    ledger: LedgerView,
    slot: Slot,
    from: u64,
    to: u64,
    capacity: usize,
)
    ensures
        ({
            let given = slot_payloads(ledger, slot, from, to, capacity);
            let meta = ledger.meta[slot];
            let is_complete = ledger.meta.contains_key(slot) && meta.last_index is Some
                && meta.consumed == meta.last_index->0 + 1;
            let end = if to < meta.consumed {
                to as int
            } else {
                meta.consumed as int
            };
            if is_complete {
                ||| fills_up(ledger.data_shreds, slot, from as int, end, capacity, given)
                ||| given == (0u64, Seq::<u8>::empty()) && none_fits(
                    ledger.data_shreds,
                    slot,
                    from as int,
                    end,
                    capacity,
                )
            } else {
                given == (0u64, Seq::<u8>::empty())
            }
        }),
{
    let meta = ledger.meta[slot];
    if ledger.meta.contains_key(slot) && meta.is_full() {
        let end = if to < meta.consumed {
            to as int
        } else {
            meta.consumed as int
        };
        let none: Seq<u8> = Seq::empty();
        assert(payloads_between(ledger.data_shreds, slot, from as int, from as int) =~= none);
        lemma_payloads_that_fit(
            ledger,
            slot,
            from as int,
            from as int,
            end,
            capacity,
            0,
            none,
        );
    }
}

/// A slot is reached from another in `n` steps, each from a slot to one that builds on it.
pub open spec fn leads_to(metas: Map<u64, SlotMetaView>, from: Slot, to: Slot, n: nat) -> bool
    decreases n,
{
    metas.contains_key(from) && if n == 0 {
        from == to
    } else {
        exists|i: int|
            0 <= i < metas[from].next_slots.len() && leads_to(
                metas,
                #[trigger] metas[from].next_slots[i],
                to,
                (n - 1) as nat,
            )
    }
}

/// A slot is another one that something is known of, or builds on it, directly or not.
pub open spec fn is_descendant(metas: Map<u64, SlotMetaView>, from: Slot, to: Slot) -> bool {
    exists|n: nat| #[trigger] leads_to(metas, from, to, n)
}

/// Something is known of every slot that builds on another.
pub open spec fn children_known(metas: Map<u64, SlotMetaView>) -> bool {
    forall|s: u64, i: int|
        metas.contains_key(s) && 0 <= i < metas[s].next_slots.len() ==> metas.contains_key(
            #[trigger] metas[s].next_slots[i],
        )
}

/// One of the first `n` children of a slot is another slot, or leads to it.
spec fn child_leads(metas: Map<u64, SlotMetaView>, slot: Slot, n: nat, to: Slot) -> bool {
    exists|j: int| 0 <= j < n && is_descendant(metas, #[trigger] metas[slot].next_slots[j], to)
}

proof fn lemma_descendant_step(metas: Map<u64, SlotMetaView>, slot: Slot, to: Slot)
    requires
        metas.contains_key(slot),
    ensures
        is_descendant(metas, slot, to) <==> slot == to || child_leads(
            metas,
            slot,
            metas[slot].next_slots.len(),
            to,
        ),
{
    let kids = metas[slot].next_slots;
    if is_descendant(metas, slot, to) {
        let n = choose|n: nat| #[trigger] leads_to(metas, slot, to, n);
        if n > 0 {
            let i = choose|i: int|
                0 <= i < kids.len() && leads_to(metas, #[trigger] kids[i], to, (n - 1) as nat);
            assert(is_descendant(metas, kids[i], to));
        }
    }
    if slot == to {
        assert(leads_to(metas, slot, to, 0));
    }
    if child_leads(metas, slot, kids.len(), to) {
        let j = choose|j: int|
            0 <= j < kids.len() && is_descendant(metas, #[trigger] metas[slot].next_slots[j], to);
        let n = choose|n: nat| #[trigger] leads_to(metas, kids[j], to, n);
        assert(leads_to(metas, slot, to, n + 1));
    }
}

proof fn lemma_fork_walk(metas: Map<u64, SlotMetaView>, slot: Slot)
    requires
        metas.contains_key(slot),
        next_slots_above(metas),
        children_known(metas),
    ensures
        !fork_walk(metas, slot).1,
        forall|t: Slot| #[trigger]
            fork_walk(metas, slot).0.contains(t) <==> is_descendant(metas, slot, t),
    decreases u64::MAX - slot, metas[slot].next_slots.len() + 1,
{
    let n = metas[slot].next_slots.len();
    lemma_children_walk(metas, slot, n);
    let below = children_walk(metas, slot, n).0;
    let all = fork_walk(metas, slot).0;
    assert forall|t: Slot| #[trigger] all.contains(t) <==> is_descendant(metas, slot, t) by {
        lemma_descendant_step(metas, slot, t);
        assert(all[0] == slot);
        if below.contains(t) {
            let x = choose|x: int| 0 <= x < below.len() && below[x] == t;
            assert(all[x + 1] == t);
        }
        if all.contains(t) {
            let x = choose|x: int| 0 <= x < all.len() && all[x] == t;
            if x > 0 {
                assert(below[x - 1] == t);
            }
        }
    }
}

proof fn lemma_children_walk(metas: Map<u64, SlotMetaView>, slot: Slot, n: nat)
    requires
        metas.contains_key(slot),
        n <= metas[slot].next_slots.len(),
        next_slots_above(metas),
        children_known(metas),
    ensures
        !children_walk(metas, slot, n).1,
        forall|t: Slot| #[trigger]
            children_walk(metas, slot, n).0.contains(t) <==> child_leads(metas, slot, n, t),
    decreases u64::MAX - slot, n,
{
    let kids = metas[slot].next_slots;
    let all = children_walk(metas, slot, n).0;
    if n > 0 {
        let child = kids[n - 1];
        assert(slot < child);
        assert(metas.contains_key(child));
        lemma_fork_walk(metas, child);
        lemma_children_walk(metas, slot, (n - 1) as nat);
        let first = fork_walk(metas, child).0;
        let rest = children_walk(metas, slot, (n - 1) as nat).0;
        assert(all == first + rest);
        assert forall|t: Slot| #[trigger] all.contains(t) <==> child_leads(metas, slot, n, t) by {
            if first.contains(t) {
                let x = choose|x: int| 0 <= x < first.len() && first[x] == t;
                assert(all[x] == t);
                assert(is_descendant(metas, kids[n - 1], t));
            }
            if rest.contains(t) {
                let x = choose|x: int| 0 <= x < rest.len() && rest[x] == t;
                assert(all[first.len() + x] == t);
                let j = choose|j: int|
                    0 <= j < n - 1 && is_descendant(
                        metas,
                        #[trigger] metas[slot].next_slots[j],
                        t,
                    );
                assert(is_descendant(metas, kids[j], t));
            }
            if all.contains(t) {
                let x = choose|x: int| 0 <= x < all.len() && all[x] == t;
                if x < first.len() {
                    assert(first[x] == t);
                } else {
                    assert(rest[x - first.len()] == t);
                }
            }
            if child_leads(metas, slot, n, t) {
                let j = choose|j: int|
                    0 <= j < n && is_descendant(metas, #[trigger] metas[slot].next_slots[j], t);
                if j < n - 1 {
                    assert(child_leads(metas, slot, (n - 1) as nat, t));
                }
            }
        }
    }
}

proof fn lemma_forks_walk(metas: Map<u64, SlotMetaView>, slots: Seq<Slot>)
    requires
        next_slots_above(metas),
        children_known(metas),
    ensures
        forall|t: Slot| #[trigger]
            forks_walk(metas, slots).contains(t) <==> exists|x: int|
                0 <= x < slots.len() && is_descendant(metas, #[trigger] slots[x], t),
    decreases slots.len(),
{
    let all = forks_walk(metas, slots);
    if slots.len() > 0 {
        let before = slots.drop_last();
        let last = slots.last();
        lemma_forks_walk(metas, before);
        let earlier = forks_walk(metas, before);
        let own = fork_walk(metas, last).0;
        if metas.contains_key(last) {
            lemma_fork_walk(metas, last);
        }
        assert forall|t: Slot| #[trigger] all.contains(t) <==> exists|x: int|
            0 <= x < slots.len() && is_descendant(metas, #[trigger] slots[x], t) by {
            assert(slots[slots.len() - 1] == last);
            if all.contains(t) {
                let x = choose|x: int| 0 <= x < all.len() && all[x] == t;
                if x < earlier.len() {
                    assert(earlier[x] == t);
                    assert(earlier.contains(t));
                    let y = choose|y: int|
                        0 <= y < before.len() && is_descendant(metas, #[trigger] before[y], t);
                    assert(slots[y] == before[y]);
                } else {
                    assert(own[x - earlier.len()] == t);
                    assert(own.contains(t));
                    assert(is_descendant(metas, slots[slots.len() - 1], t));
                }
            }
            if exists|x: int| 0 <= x < slots.len() && is_descendant(metas, #[trigger] slots[x], t) {
                let x = choose|x: int|
                    0 <= x < slots.len() && is_descendant(metas, #[trigger] slots[x], t);
                if x < before.len() {
                    assert(before[x] == slots[x]);
                    assert(earlier.contains(t));
                    let y = choose|y: int| 0 <= y < earlier.len() && earlier[y] == t;
                    assert(all[y] == t);
                } else {
                    let n = choose|n: nat| #[trigger] leads_to(metas, last, t, n);
                    assert(metas.contains_key(last));
                    assert(own.contains(t));
                    let y = choose|y: int| 0 <= y < own.len() && own[y] == t;
                    assert(all[earlier.len() + y] == t);
                }
            }
        }
    }
}

/// The live slots are exactly the root and what builds on it, and the orphans above it and what
/// builds on them.
pub proof fn law_live_slots(ledger: LedgerView, root: Slot, slot: Slot)
    requires
        root < u64::MAX,
        next_slots_above(ledger.meta),
        children_known(ledger.meta),
        ledger.orphans.dom().finite(),
    ensures
        live_slots(ledger, root).contains(slot) <==> is_descendant(ledger.meta, root, slot)
            || exists|o: Slot| #[trigger]
            ledger.orphans.contains_key(o) && o > root && is_descendant(ledger.meta, o, slot),
{
    let metas = ledger.meta;
    let from = (root + 1) as u64;
    let above = keys_at_or_above(ledger.orphans, from);
    let orphans = keys_from(ledger.orphans, from);
    let kept = ledger.orphans.restrict(above);
    assert(kept.dom() =~= above);
    vstd::set_lib::lemma_set_subset_finite(ledger.orphans.dom(), above);
    lemma_finite_orders(kept);
    assert forall|k: u64| #[trigger] above.contains(k) <==> ordered_keys(kept).contains(k) by {
        assert(kept.contains_key(k) <==> above.contains(k));
    }
    lemma_ordered(ordered_keys(kept), above);
    let first = fork_walk(metas, root).0;
    let second = forks_walk(metas, orphans);
    let all = live_slots(ledger, root);
    if metas.contains_key(root) {
        lemma_fork_walk(metas, root);
    } else {
        assert(!is_descendant(metas, root, slot));
        assert(first =~= Seq::empty());
    }
    lemma_forks_walk(metas, orphans);
    if all.contains(slot) {
        let x = choose|x: int| 0 <= x < all.len() && all[x] == slot;
        if x < first.len() {
            assert(first[x] == slot);
            assert(first.contains(slot));
        } else {
            assert(second[x - first.len()] == slot);
            assert(second.contains(slot));
            let y = choose|y: int|
                0 <= y < orphans.len() && is_descendant(metas, #[trigger] orphans[y], slot);
            assert(orphans.contains(orphans[y]));
            assert(above.contains(orphans[y]));
            assert(ledger.orphans.contains_key(orphans[y]));
        }
    }
    if is_descendant(metas, root, slot) {
        assert(first.contains(slot));
        let x = choose|x: int| 0 <= x < first.len() && first[x] == slot;
        assert(all[x] == slot);
    }
    if exists|o: Slot| #[trigger]
        ledger.orphans.contains_key(o) && o > root && is_descendant(metas, o, slot) {
        let o = choose|o: Slot| #[trigger]
            ledger.orphans.contains_key(o) && o > root && is_descendant(metas, o, slot);
        assert(above.contains(o));
        assert(orphans.contains(o));
        let y = choose|y: int| 0 <= y < orphans.len() && orphans[y] == o;
        assert(is_descendant(metas, orphans[y], slot));
        assert(second.contains(slot));
        let x = choose|x: int| 0 <= x < second.len() && second[x] == slot;
        assert(all[first.len() + x] == slot);
    }
}

/// A shred of a kind is held where the column of that kind has one at its slot and index. What is
/// read of a data shred is what is kept of it, with zeros after it up to the length of a shred.
pub proof fn law_held_shreds(
    ledger: LedgerView,
    slot: Slot,
    index: u32,
    kind: ShredType,
    bytes: Seq<u8>,
)
    ensures
        holds_shred(ledger, slot, index, kind) <==> {
            let key = SlotIndex { slot, index: index as u64 };
            ||| kind == ShredType::Data && ledger.data_shreds.contains_key(key)
            ||| kind == ShredType::Code && ledger.code_shreds.contains_key(key)
        },
        filled(bytes).len() >= bytes.len(),
        filled(bytes).len() >= SHRED_PAYLOAD_SIZE,
        filled(bytes).len() == bytes.len() || filled(bytes).len() == SHRED_PAYLOAD_SIZE,
        forall|i: int|
            0 <= i < filled(bytes).len() ==> #[trigger] filled(bytes)[i] == if i < bytes.len() {
                bytes[i]
            } else {
                0
            },
{
}

} // verus!
