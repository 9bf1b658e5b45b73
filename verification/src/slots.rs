//! Walking through the columns: shreds, slots, samples and costs.

use vstd::prelude::*;
use crate::blockstore::Blockstore;
use crate::column::{
    keys_from, lemma_selected_window, ordered_keys, orders, selected, splits_at, Column, ColumnKey,
    Duplicate, SlotIndex,
};
use crate::insertion::filled;
use crate::ledger::{LedgerView, WriteOp, WriteOpView};
use crate::meta::{Index, PerfSample, ProgramCost, SlotMeta, SlotMetaView};
use crate::records::{BlockstoreError, Result};
use crate::shred::{parse_shred, shred_views, Shred, ShredView};
use crate::slot_entries::cleaned_up;
use crate::types::{Pubkey, Slot};

verus! {

/// The keys of the shreds of a slot from `index` on, in order.
pub open spec fn slot_keys<W>(column: Map<SlotIndex, W>, slot: Slot, index: u64) -> Seq<SlotIndex> {
    selected(ordered_keys(column), |k: SlotIndex| k.slot == slot && k.index >= index)
}

/// The keys and the bytes of the shreds in a vector.
pub open spec fn shred_records(records: Seq<(SlotIndex, Vec<u8>)>) -> Seq<(SlotIndex, Seq<u8>)> {
    Seq::new(records.len(), |i: int| (records[i].0, records[i].1@))
}

/// The shreds of a slot from `index` on, with their keys, in order.
pub open spec fn slot_records(
    column: Map<SlotIndex, Seq<u8>>,
    slot: Slot,
    index: u64,
) -> Seq<(SlotIndex, Seq<u8>)> {
    let keys = slot_keys(column, slot, index);
    Seq::new(keys.len(), |i: int| (keys[i], column[keys[i]]))
}

/// The shreds that the bytes of some records hold, or `None` where one cannot be read.
pub open spec fn parsed_records(records: Seq<(SlotIndex, Seq<u8>)>) -> Option<Seq<ShredView>> {
    if forall|i: int| 0 <= i < records.len() ==> parse_shred((#[trigger] records[i]).1) is Some {
        Some(Seq::new(records.len(), |i: int| parse_shred(records[i].1)->0))
    } else {
        None
    }
}

/// Collects the shreds of a slot from `index` on.
fn collect_slot(column: &Column<SlotIndex, Vec<u8>>, slot: Slot, index: u64) -> (result: Vec<
    (SlotIndex, Vec<u8>),
>)
    ensures
        shred_records(result@) == slot_records(column@, slot, index),
{
    let ghost keys = ordered_keys(column@);
    let ghost keep = |k: SlotIndex| k.slot == slot && k.index >= index;
    let ghost all = slot_records(column@, slot, index);
    let n: usize = column.len();
    let start = SlotIndex { slot, index };
    let p: usize = column.lower_bound(&start);
    let mut result: Vec<(SlotIndex, Vec<u8>)> = Vec::new();
    let mut i: usize = p;
    assert(keys.subrange(p as int, p as int) =~= Seq::empty());
    assert(shred_records(result@) =~= Seq::empty());
    loop
        invariant
            p <= i <= n,
            n == keys.len(),
            keys == ordered_keys(column@),
            orders(keys, column@),
            splits_at(keys, start, p as int),
            start == (SlotIndex { slot, index }),
            keep == (|k: SlotIndex| k.slot == slot && k.index >= index),
            ({
                let w = selected(keys.subrange(p as int, i as int), keep);
                shred_records(result@) == Seq::new(w.len(), |j: int| (w[j], column@[w[j]]))
            }),
        ensures
            i < n ==> keys[i as int].slot != slot,
        decreases n - i,
    {
        if i >= n {
            break;
        }
        let key = column.key_at(i);
        if key.slot != slot {
            break;
        }
        let bytes = column.value_at(i).duplicate();
        let ghost so_far = shred_records(result@);
        proof {
            let w = keys.subrange(p as int, i + 1);
            assert(w.drop_last() =~= keys.subrange(p as int, i as int));
            assert(w.last() == key);
            assert(!keys[i as int].before(start));
            assert(keep(key));
        }
        result.push((key, bytes));
        proof {
            assert(shred_records(result@) =~= so_far.push((key, bytes@)));
            let w = selected(keys.subrange(p as int, i + 1), keep);
            assert(shred_records(result@) =~= Seq::new(w.len(), |j: int| (w[j], column@[w[j]])));
        }
        i += 1;
    }
    proof {
        assert forall|j: int| 0 <= j < p implies !keep(#[trigger] keys[j]) by {
            assert(keys[j].before(start));
        }
        assert forall|j: int| i <= j < keys.len() implies !keep(#[trigger] keys[j]) by {
            assert(!keys[i as int].before(start));
            if i < j {
                assert(keys[i as int].before(keys[j]));
            }
        }
        lemma_selected_window(keys, keep, p as int, i as int);
    }
    result
}

/// Reads the shreds in some records.
fn parse_records(records: &Vec<(SlotIndex, Vec<u8>)>) -> (result: Option<Vec<Shred>>)
    ensures
        (match result {
            Some(shreds) => Some(shred_views(shreds@)),
            None => None,
        }) == parsed_records(shred_records(records@)),
{
    let ghost views = shred_records(records@);
    let ghost all = Seq::new(views.len(), |i: int| parse_shred(views[i].1)->0);
    let mut result: Vec<Shred> = Vec::new();
    let mut i: usize = 0;
    assert(shred_views(result@) =~= all.take(0));
    while i < records.len()
        invariant
            0 <= i <= records@.len(),
            views == shred_records(records@),
            all == Seq::new(views.len(), |i: int| parse_shred(views[i].1)->0),
            shred_views(result@) == all.take(i as int),
            forall|j: int| 0 <= j < i ==> parse_shred((#[trigger] views[j]).1) is Some,
        decreases records@.len() - i,
    {
        let ghost so_far = shred_views(result@);
        assert(views[i as int].1 == records@[i as int].1@);
        match Shred::new_from_serialized_shred(&records[i].1) {
            None => {
                assert(parse_shred(views[i as int].1) is None);
                return None;
            },
            Some(shred) => {
                result.push(shred);
                assert(shred_views(result@) =~= so_far.push(shred@));
                assert(shred_views(result@) =~= all.take(i + 1));
            },
        }
        i += 1;
    }
    assert(all.take(records@.len() as int) =~= all);
    Some(result)
}

/// The payloads of the data shreds from index `from` up to `to`, excluded, one after the other,
/// behind `bytes`, until another of the same length does not fit into `capacity` bytes; and the
/// index of the last of them. Shreds that are missing are passed over.
pub open spec fn payloads_that_fit(
    ledger: LedgerView,
    slot: Slot,
    from: int,
    to: int,
    capacity: usize,
    last_index: u64,
    bytes: Seq<u8>,
) -> (u64, Seq<u8>)
    decreases to - from,
{
    let key = SlotIndex { slot, index: from as u64 };
    if from >= to {
        (last_index, bytes)
    } else if !ledger.data_shreds.contains_key(key) {
        payloads_that_fit(ledger, slot, from + 1, to, capacity, last_index, bytes)
    } else if bytes.len() + filled(ledger.data_shreds[key]).len() > capacity {
        (last_index, bytes)
    } else if bytes.len() + 2 * filled(ledger.data_shreds[key]).len() > capacity {
        (from as u64, bytes + filled(ledger.data_shreds[key]))
    } else {
        payloads_that_fit(
            ledger,
            slot,
            from + 1,
            to,
            capacity,
            from as u64,
            bytes + filled(ledger.data_shreds[key]),
        )
    }
}

/// The payloads of the data shreds of a full slot that fit into `capacity` bytes.
pub open spec fn slot_payloads(
    ledger: LedgerView,
    slot: Slot,
    from: u64,
    to: u64,
    capacity: usize,
) -> (u64, Seq<u8>) {
    if ledger.meta.contains_key(slot) && ledger.meta[slot].is_full() {
        payloads_that_fit(
            ledger,
            slot,
            from as int,
            if to < ledger.meta[slot].consumed {
                to as int
            } else {
                ledger.meta[slot].consumed as int
            },
            capacity,
            0,
            Seq::empty(),
        )
    } else {
        (0, Seq::empty())
    }
}

/// The children of every slot are above it.
pub open spec fn next_slots_above(metas: Map<u64, SlotMetaView>) -> bool {
    forall|s: u64, i: int|
        metas.contains_key(s) && 0 <= i < metas[s].next_slots.len() ==> s
            < #[trigger] metas[s].next_slots[i]
}

/// The walk from `slot` through its children, the last child first, and whether it came to a
/// slot that nothing is known of, at which it ends.
pub open spec fn fork_walk(metas: Map<u64, SlotMetaView>, slot: Slot) -> (Seq<Slot>, bool)
    decreases u64::MAX - slot, metas[slot].next_slots.len() + 1,
{
    if !metas.contains_key(slot) {
        (Seq::empty(), true)
    } else {
        let below = children_walk(metas, slot, metas[slot].next_slots.len());
        (seq![slot] + below.0, below.1)
    }
}

/// The walk through the first `n` children of `slot`, the last first.
pub open spec fn children_walk(metas: Map<u64, SlotMetaView>, slot: Slot, n: nat) -> (
    Seq<Slot>,
    bool,
)
    decreases u64::MAX - slot, n,
{
    if n == 0 || n > metas[slot].next_slots.len() || metas[slot].next_slots[n - 1] <= slot {
        (Seq::empty(), false)
    } else {
        let first = fork_walk(metas, metas[slot].next_slots[n - 1]);
        if first.1 {
            first
        } else {
            let rest = children_walk(metas, slot, (n - 1) as nat);
            (first.0 + rest.0, rest.1)
        }
    }
}

/// The walk through the slots of a stack, the last first.
pub open spec fn stack_walk(metas: Map<u64, SlotMetaView>, stack: Seq<Slot>) -> Seq<Slot>
    decreases stack.len(),
{
    if stack.len() == 0 {
        Seq::empty()
    } else {
        let first = fork_walk(metas, stack.last());
        if first.1 {
            first.0
        } else {
            first.0 + stack_walk(metas, stack.drop_last())
        }
    }
}

/// The walks from some slots, one after the other.
pub open spec fn forks_walk(metas: Map<u64, SlotMetaView>, slots: Seq<Slot>) -> Seq<Slot>
    decreases slots.len(),
{
    if slots.len() == 0 {
        Seq::empty()
    } else {
        forks_walk(metas, slots.drop_last()) + fork_walk(metas, slots.last()).0
    }
}

/// The live slots: those that build on `root`, then those that build on the orphans above it.
pub open spec fn live_slots(ledger: LedgerView, root: Slot) -> Seq<Slot> {
    fork_walk(ledger.meta, root).0 + forks_walk(
        ledger.meta,
        keys_from(ledger.orphans, (root + 1) as u64),
    )
}

/// Something is known of every slot.
spec fn all_known(metas: Map<u64, SlotMetaView>, slots: Seq<Slot>) -> bool {
    forall|i: int| 0 <= i < slots.len() ==> metas.contains_key(#[trigger] slots[i])
}

proof fn lemma_stack_children(
    metas: Map<u64, SlotMetaView>,
    rest: Seq<Slot>,
    slot: Slot,
    n: nat,
)
    requires
        metas.contains_key(slot),
        next_slots_above(metas),
        n <= metas[slot].next_slots.len(),
    ensures
        ({
            let w = children_walk(metas, slot, n);
            stack_walk(metas, rest + metas[slot].next_slots.take(n as int)) == if w.1 {
                w.0
            } else {
                w.0 + stack_walk(metas, rest)
            }
        }),
    decreases n,
{
    let kids = metas[slot].next_slots;
    if n == 0 {
        assert(rest + kids.take(0) =~= rest);
        assert(Seq::<Slot>::empty() + stack_walk(metas, rest) =~= stack_walk(metas, rest));
    } else {
        let stack = rest + kids.take(n as int);
        assert(stack.last() == kids[n - 1]);
        assert(stack.drop_last() =~= rest + kids.take(n - 1));
        assert(slot < metas[slot].next_slots[n - 1]);
        lemma_stack_children(metas, rest, slot, (n - 1) as nat);
        let first = fork_walk(metas, kids[n - 1]);
        let w = children_walk(metas, slot, (n - 1) as nat);
        assert(first.0 + (w.0 + stack_walk(metas, rest)) =~= (first.0 + w.0) + stack_walk(
            metas,
            rest,
        ));
    }
}

impl Blockstore {
    /// Walks from `slot` through the slots that build on it.
    fn walk_fork(&self, slot: Slot, result: &mut Vec<Slot>)
        requires
            next_slots_above(self@.ledger.meta),
            all_known(self@.ledger.meta, old(result)@),
        ensures
            all_known(self@.ledger.meta, final(result)@),
            final(result)@ == old(result)@ + fork_walk(self@.ledger.meta, slot).0,
    {
        let ghost metas = self@.ledger.meta;
        let ghost base = result@;
        let ghost goal = fork_walk(metas, slot).0;
        let mut pending: Vec<Slot> = Vec::new();
        pending.push(slot);
        proof {
            assert(pending@ =~= seq![slot]);
            assert(pending@.drop_last() =~= Seq::<Slot>::empty());
            assert(stack_walk(metas, Seq::<Slot>::empty()) =~= Seq::<Slot>::empty());
            assert(goal + Seq::<Slot>::empty() =~= goal);
            assert(stack_walk(metas, pending@) == goal);
        }
        loop
            invariant_except_break
                result@ + stack_walk(metas, pending@) == base + goal,
            invariant
                metas == self@.ledger.meta,
                next_slots_above(metas),
                all_known(metas, result@),
            ensures
                result@ == base + goal,
            decreases stack_walk(metas, pending@).len(),
        {
            let ghost stack = pending@;
            let ghost so_far = result@;
            match pending.pop() {
                None => {
                    assert(result@ + Seq::<Slot>::empty() =~= result@);
                    break;
                },
                Some(current) => {
                    assert(stack.last() == current);
                    assert(pending@ =~= stack.drop_last());
                    match self.ledger.meta.get(&current) {
                        None => {
                            assert(stack_walk(metas, stack) =~= Seq::empty());
                            assert(result@ + Seq::<Slot>::empty() =~= result@);
                            break;
                        },
                        Some(meta) => {
                            let mut children = meta.next_slots.duplicate();
                            let ghost rest = pending@;
                            let ghost kids = children@;
                            pending.append(&mut children);
                            result.push(current);
                            proof {
                                lemma_stack_children(metas, rest, current, kids.len());
                                assert(kids.take(kids.len() as int) =~= kids);
                                assert(pending@ =~= rest + kids);
                                let w = children_walk(metas, current, kids.len());
                                assert(stack_walk(metas, stack) =~= seq![current] + stack_walk(
                                    metas,
                                    pending@,
                                ));
                                assert(so_far + (seq![current] + stack_walk(metas, pending@))
                                    =~= result@ + stack_walk(metas, pending@));
                            }
                        },
                    }
                },
            }
        }
    }

    /// The live slots, with what is known of each: those that build on `root`, then those that
    /// build on the orphans above it.
    pub fn live_slots_iterator(&self, root: Slot) -> (result: Vec<(Slot, SlotMeta)>)
        requires
            root < u64::MAX,
            next_slots_above(self@.ledger.meta),
        ensures
            result@.len() == live_slots(self@.ledger, root).len(),
            forall|i: int|
                0 <= i < result@.len() ==> (#[trigger] result@[i]).0 == live_slots(
                    self@.ledger,
                    root,
                )[i] && self@.ledger.meta.contains_key(result@[i].0) && result@[i].1@
                    == self@.ledger.meta[result@[i].0],
    {
        let slots = self.walk_live_slots(root);
        let mut result: Vec<(Slot, SlotMeta)> = Vec::new();
        let mut i: usize = 0;
        while i < slots.len()
            invariant
                0 <= i <= slots@.len(),
                result@.len() == i,
                all_known(self@.ledger.meta, slots@),
                forall|j: int|
                    0 <= j < i ==> (#[trigger] result@[j]).0 == slots@[j]
                        && self@.ledger.meta.contains_key(slots@[j]) && result@[j].1@
                        == self@.ledger.meta[slots@[j]],
            decreases slots@.len() - i,
        {
            let slot: u64 = slots[i];
            assert(self@.ledger.meta.contains_key(slots@[i as int]));
            match self.ledger.meta.get(&slot) {
                Some(meta) => result.push((slot, meta.duplicate())),
                None => {
                    assert(false);
                },
            }
            i += 1;
        }
        result
    }

    /// Walks through the live slots.
    fn walk_live_slots(&self, root: Slot) -> (result: Vec<Slot>)
        requires
            root < u64::MAX,
            next_slots_above(self@.ledger.meta),
        ensures
            result@ == live_slots(self@.ledger, root),
            all_known(self@.ledger.meta, result@),
    {
        let mut result: Vec<Slot> = Vec::new();
        self.walk_fork(root, &mut result);
        let ghost first = fork_walk(self@.ledger.meta, root).0;
        assert(result@ =~= first);
        let orphans = self.orphans_iterator(root + 1);
        let mut i: usize = 0;
        assert(orphans@.take(0) =~= Seq::empty());
        assert(first + Seq::<Slot>::empty() =~= first);
        while i < orphans.len()
            invariant
                0 <= i <= orphans@.len(),
                next_slots_above(self@.ledger.meta),
                all_known(self@.ledger.meta, result@),
                result@ == first + forks_walk(self@.ledger.meta, orphans@.take(i as int)),
            decreases orphans@.len() - i,
        {
            let ghost so_far = result@;
            self.walk_fork(orphans[i], &mut result);
            proof {
                let metas = self@.ledger.meta;
                assert(orphans@.take(i + 1).drop_last() =~= orphans@.take(i as int));
                assert(orphans@.take(i + 1).last() == orphans@[i as int]);
                assert(result@ =~= first + forks_walk(metas, orphans@.take(i + 1)));
            }
            i += 1;
        }
        assert(orphans@.take(orphans@.len() as int) =~= orphans@);
        result
    }

    /// The data shreds of a slot from `index` on, as they are stored.
    pub fn slot_data_iterator(&self, slot: Slot, index: u64) -> (result: Vec<(SlotIndex, Vec<u8>)>)
        ensures
            shred_records(result@) == slot_records(self@.ledger.data_shreds, slot, index),
    {
        collect_slot(&self.ledger.data_shreds, slot, index)
    }

    /// The coding shreds of a slot from `index` on.
    pub fn slot_coding_iterator(&self, slot: Slot, index: u64) -> (result: Vec<
        (SlotIndex, Vec<u8>),
    >)
        ensures
            shred_records(result@) == slot_records(self@.ledger.code_shreds, slot, index),
    {
        collect_slot(&self.ledger.code_shreds, slot, index)
    }

    /// The data shreds of a slot from `start_index` on, or `None` where one cannot be read.
    pub fn get_data_shreds_for_slot(&self, slot: Slot, start_index: u64) -> (result: Option<
        Vec<Shred>,
    >)
        ensures
            (match result {
                Some(shreds) => Some(shred_views(shreds@)),
                None => None,
            }) == parsed_records(slot_records(self@.ledger.data_shreds, slot, start_index)),
    {
        parse_records(&self.slot_data_iterator(slot, start_index))
    }

    /// The coding shreds of a slot from `start_index` on, or `None` where one cannot be read.
    pub fn get_coding_shreds_for_slot(&self, slot: Slot, start_index: u64) -> (result: Option<
        Vec<Shred>,
    >)
        ensures
            (match result {
                Some(shreds) => Some(shred_views(shreds@)),
                None => None,
            }) == parsed_records(slot_records(self@.ledger.code_shreds, slot, start_index)),
    {
        parse_records(&self.slot_coding_iterator(slot, start_index))
    }

    /// The payloads of the data shreds of a full slot from index `from_index` up to `to_index`,
    /// excluded, as far as they fit into `capacity` bytes, and the index of the last of them.
    pub fn get_data_shreds(
        &self,
        slot: Slot,
        from_index: u64,
        to_index: u64,
        capacity: usize,
    ) -> (result: Result<(u64, Vec<u8>)>)
        ensures
            (match result {
                Ok(found) => Ok::<(u64, Seq<u8>), BlockstoreError>((found.0, found.1@)),
                Err(e) => Err(e),
            }) == if cleaned_up(self@, slot) {
                Err::<(u64, Seq<u8>), BlockstoreError>(BlockstoreError::SlotCleanedUp)
            } else {
                Ok(slot_payloads(self@.ledger, slot, from_index, to_index, capacity))
            },
    {
        match self.check_lowest_cleanup_slot(slot) {
            Err(e) => {
                return Err(e);
            },
            Ok(_) => {},
        }
        let mut bytes: Vec<u8> = Vec::new();
        let mut last_index: u64 = 0;
        assert(bytes@ =~= Seq::empty());
        let ghost ledger = self@.ledger;
        let ghost goal = slot_payloads(ledger, slot, from_index, to_index, capacity);
        if let Some(meta) = self.ledger.meta.get(&slot) {
            if !meta.is_full() {
                return Ok((last_index, bytes));
            }
            let end: u64 = if to_index < meta.consumed {
                to_index
            } else {
                meta.consumed
            };
            let mut index: u64 = from_index;
            while index < end
                invariant
                    ledger == self@.ledger,
                    goal == slot_payloads(ledger, slot, from_index, to_index, capacity),
                    !cleaned_up(self@, slot),
                    bytes@.len() <= capacity,
                    goal == payloads_that_fit(
                        ledger,
                        slot,
                        index as int,
                        end as int,
                        capacity,
                        last_index,
                        bytes@,
                    ),
                decreases end - index,
            {
                if let Some(payload) = self.get_data_shred(slot, index) {
                    if payload.len() > capacity - bytes.len() {
                        return Ok((last_index, bytes));
                    }
                    let ghost so_far = bytes@;
                    bytes.extend_from_slice(payload.as_slice());
                    assert(bytes@ =~= so_far + payload@);
                    last_index = index;
                    if payload.len() > capacity - bytes.len() {
                        return Ok((last_index, bytes));
                    }
                }
                index += 1;
            }
        }
        Ok((last_index, bytes))
    }

    /// The index of a slot.
    pub fn get_index(&self, slot: Slot) -> (result: Option<Index>)
        ensures
            result is Some <==> self@.ledger.index.contains_key(slot),
            result is Some ==> result->0@ == self@.ledger.index[slot],
    {
        match self.ledger.index.get(&slot) {
            Some(index) => Some(index.duplicate()),
            None => None,
        }
    }

    /// Replaces what is known of a slot. This can break the links between slots: use with care.
    pub fn put_meta(&mut self, slot: Slot, meta: SlotMeta)
        ensures
            final(self)@ == old(self)@.commit_one(WriteOpView::PutMeta(slot, meta@)),
            final(self)@.ledger == old(self)@.ledger.apply(WriteOpView::PutMeta(slot, meta@)),
    {
        self.commit_one(WriteOp::PutMeta(slot, meta));
    }

    /// The last `num` samples, newest first.
    pub fn get_recent_perf_samples(&self, num: usize) -> (result: Vec<(Slot, PerfSample)>)
        ensures
            ({
                let keys = ordered_keys(self@.ledger.perf_samples);
                let n = if num < keys.len() {
                    num as int
                } else {
                    keys.len() as int
                };
                &&& orders(keys, self@.ledger.perf_samples)
                &&& result@ == Seq::new(
                    n as nat,
                    |i: int|
                        (
                            keys[keys.len() - 1 - i],
                            self@.ledger.perf_samples[keys[keys.len() - 1 - i]],
                        ),
                )
            }),
    {
        let total: usize = self.ledger.perf_samples.len();
        let ghost keys = ordered_keys(self@.ledger.perf_samples);
        let n: usize = if num < total {
            num
        } else {
            total
        };
        let ghost all = Seq::new(
            n as nat,
            |i: int|
                (
                    keys[keys.len() - 1 - i],
                    self@.ledger.perf_samples[keys[keys.len() - 1 - i]],
                ),
        );
        let mut result: Vec<(Slot, PerfSample)> = Vec::new();
        let mut i: usize = 0;
        while i < n
            invariant
                0 <= i <= n <= total,
                total == keys.len(),
                keys == ordered_keys(self@.ledger.perf_samples),
                all.len() == n,
                forall|j: int|
                    0 <= j < n ==> (#[trigger] all[j]) == (
                        keys[keys.len() - 1 - j],
                        self@.ledger.perf_samples[keys[keys.len() - 1 - j]],
                    ),
                result@ == all.take(i as int),
            decreases n - i,
        {
            let at: usize = total - 1 - i;
            let slot: u64 = self.ledger.perf_samples.key_at(at);
            let sample = *self.ledger.perf_samples.value_at(at);
            result.push((slot, sample));
            assert(result@ =~= all.take(i + 1));
            i += 1;
        }
        assert(all.take(n as int) =~= all);
        result
    }

    /// Keeps a sample.
    pub fn write_perf_sample(&mut self, index: Slot, perf_sample: &PerfSample)
        ensures
            final(self)@ == old(self)@.commit_one(WriteOpView::PutPerfSample(index, *perf_sample)),
            final(self)@.ledger == old(self)@.ledger.apply(
                WriteOpView::PutPerfSample(index, *perf_sample),
            ),
    {
        self.commit_one(WriteOp::PutPerfSample(index, *perf_sample));
    }

    /// The cost of every program, in decreasing order of their addresses.
    pub fn read_program_costs(&self) -> (result: Vec<(Pubkey, u64)>)
        ensures
            ({
                let keys = ordered_keys(self@.ledger.program_costs);
                &&& orders(keys, self@.ledger.program_costs)
                &&& result@ == Seq::new(
                    keys.len(),
                    |i: int|
                        (
                            keys[keys.len() - 1 - i],
                            self@.ledger.program_costs[keys[keys.len() - 1 - i]].cost,
                        ),
                )
            }),
    {
        let n: usize = self.ledger.program_costs.len();
        let ghost keys = ordered_keys(self@.ledger.program_costs);
        let ghost all = Seq::new(
            keys.len(),
            |i: int|
                (
                    keys[keys.len() - 1 - i],
                    self@.ledger.program_costs[keys[keys.len() - 1 - i]].cost,
                ),
        );
        let mut result: Vec<(Pubkey, u64)> = Vec::new();
        let mut i: usize = 0;
        while i < n
            invariant
                0 <= i <= n,
                n == keys.len(),
                keys == ordered_keys(self@.ledger.program_costs),
                all.len() == n,
                forall|j: int|
                    0 <= j < n ==> (#[trigger] all[j]) == (
                        keys[keys.len() - 1 - j],
                        self@.ledger.program_costs[keys[keys.len() - 1 - j]].cost,
                    ),
                result@ == all.take(i as int),
            decreases n - i,
        {
            let at: usize = n - 1 - i;
            let key = self.ledger.program_costs.key_at(at);
            let cost: u64 = self.ledger.program_costs.value_at(at).cost;
            result.push((key, cost));
            assert(result@ =~= all.take(i + 1));
            i += 1;
        }
        assert(all.take(n as int) =~= all);
        result
    }

    /// Keeps the cost of a program.
    pub fn write_program_cost(&mut self, key: &Pubkey, value: &u64)
        ensures
            final(self)@ == old(self)@.commit_one(
                WriteOpView::PutProgramCost(*key, ProgramCost { cost: *value }),
            ),
            final(self)@.ledger == old(self)@.ledger.apply(
                WriteOpView::PutProgramCost(*key, ProgramCost { cost: *value }),
            ),
    {
        self.commit_one(WriteOp::PutProgramCost(*key, ProgramCost { cost: *value }));
    }

    /// Drops the cost of a program.
    pub fn delete_program_cost(&mut self, key: &Pubkey)
        ensures
            final(self)@ == old(self)@.commit_one(WriteOpView::DeleteProgramCost(*key)),
            final(self)@.ledger == old(self)@.ledger.apply(WriteOpView::DeleteProgramCost(*key)),
    {
        self.commit_one(WriteOp::DeleteProgramCost(*key));
    }
}

} // verus!
