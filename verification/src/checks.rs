//! Whether a store can do what is asked of it: tests of the conditions under which the other
//! functions can be called.

use vstd::prelude::*;
use crate::addresses::other_index;
use crate::batch::{
    batch_allowed, batch_step, batch_steps, ledger_sound, lemma_start_sound,
    lemma_steps_allowed_prefix, links_forward, meta_sound, same_but_duplicates, state_sound,
    step_allowed, steps_allowed, Progress,
};
use crate::blocks::{block_readable, transaction_readable};
use crate::blockstore::{Blockstore, BlockstoreView};
use crate::coding::{code_readable, conflicting_shred, erasure_entry, erasure_in_bounds};
use crate::column::{ordered_keys, orders, splits_at, ColumnKey, Duplicate, SlotIndex};
use crate::consistency::ends_run;
use crate::insertion::{
    fill_payload, filled, insertable, meta_backed, meta_entry, payload_at, InsertionState,
    ShredSource,
};
use crate::ledger::Ledger;
use crate::meta::{ErasureMeta, SlotMeta};
use crate::metrics::{bump, BlockstoreInsertionMetrics};
use crate::repair::{flags_readable, in_reach, lemma_in_reach, OFFSET_OF_DATA_FLAGS};
use crate::roots::{descends, holds_shred, parent_of};
use crate::shred::{parse_shred, shred_views, Shred, ShredType, ShredView};
use crate::slot_entries::{
    lemma_shreds_from_err, ranges_valid, run_readable, runs_readable, shreds_from, slot_readable,
    truncate_u64,
};
use crate::slot_update::{elapsed_at_tick, DEFAULT_TICKS_PER_SECOND};
use crate::slots::next_slots_above;
use crate::transactions::{can_write_status, indexes_paired};
use crate::types::{Signature, Slot};

verus! {

/// Two stores differ at most in their proofs, their statistics, and what the second has written
/// since.
spec fn same_but_counts(a: BlockstoreView, b: BlockstoreView) -> bool {
    &&& a.journal.len() <= b.journal.len()
    &&& b.journal.take(a.journal.len() as int) == a.journal
    &&& b == BlockstoreView {
        ledger: b.ledger,
        journal: b.journal,
        slots_stats: b.slots_stats,
        last_stats_cleanup: b.last_stats_cleanup,
        ..a
    }
}

proof fn lemma_same_but_counts(a: BlockstoreView, b: BlockstoreView, c: BlockstoreView)
    requires
        same_but_counts(a, b),
        same_but_counts(b, c),
    ensures
        same_but_counts(a, c),
{
    assert(c.journal.take(a.journal.len() as int) =~= b.journal.take(a.journal.len() as int));
}

proof fn lemma_duplicate_keeps_counts(store: BlockstoreView, slot: Slot, a: Seq<u8>, b: Seq<u8>)
    ensures
        same_but_counts(store, store.with_duplicate(slot, a, b)),
{
    let after = store.with_duplicate(slot, a, b);
    assert(after.journal.take(store.journal.len() as int) =~= store.journal);
}

/// One shred of a batch changes no more of the store than proofs and statistics.
proof fn lemma_step_keeps_counts(
    p: Progress,
    shred: ShredView,
    is_repaired: bool,
    is_trusted: bool,
    now: u64,
    at: usize,
)
    ensures
        same_but_counts(p.store, batch_step(p, shred, is_repaired, is_trusted, now, at).store),
{
    let slot = shred.slot();
    let store = p.store;
    assert(store.journal.take(store.journal.len() as int) =~= store.journal);
    if shred.is_data() {
        if shred.parent() is Some {
            let meta = meta_entry(
                store.ledger,
                p.state.slot_metas,
                slot,
                shred.parent()->0,
            ).new_slot_meta;
            if meta.last_index is Some {
                lemma_duplicate_keeps_counts(
                    store,
                    slot,
                    payload_at(store.ledger, p.state.data_shreds, slot, meta.last_index->0),
                    shred.payload,
                );
            }
            lemma_duplicate_keeps_counts(
                store,
                slot,
                payload_at(store.ledger, p.state.data_shreds, slot, (meta.received - 1) as u64),
                shred.payload,
            );
        }
    } else {
        let meta = erasure_entry(store.ledger, p.state.erasure_metas, shred);
        if let Some(other) = conflicting_shred(store.ledger, p.state.code_shreds, shred, meta) {
            lemma_duplicate_keeps_counts(store, slot, other, shred.payload);
        }
    }
}

impl Shred {
    /// Whether the shred can be inserted.
    pub fn is_insertable(&self, is_trusted: bool, now: u64) -> (result: bool)
        ensures
            result == insertable(self@, is_trusted, now),
    {
        if self.is_data() {
            let tick: u8 = self.reference_tick();
            let elapsed: u64 = (tick as u64 * 1000) / DEFAULT_TICKS_PER_SECOND;
            assert(elapsed == elapsed_at_tick(tick));
            (self.data_header.size as usize) <= self.payload.len() && self.index() < u32::MAX && now
                >= elapsed
        } else {
            !is_trusted || self.sanitize()
        }
    }
}

impl ErasureMeta {
    /// Whether every shred index of the set fits in 32 bits.
    pub fn is_in_bounds(&self) -> (result: bool)
        ensures
            result == self.in_bounds(),
    {
        let top: u64 = 0x1_0000_0000;
        let num_data: u64 = self.config.num_data as u64;
        let num_coding: u64 = self.config.num_coding as u64;
        num_data <= top && self.set_index <= top - num_data && num_coding <= top && self.set_index
            <= top - num_coding && self.first_coding_index <= top - num_coding
    }
}

impl Ledger {
    /// Whether the metadata of a slot can be relied on while shreds are inserted.
    fn is_meta_sound(&self, slot: Slot, meta: &SlotMeta) -> (result: bool)
        ensures
            result == meta_sound(self@, Map::empty(), slot, meta@),
    {
        if let Some(last_index) = meta.last_index {
            if last_index > u32::MAX as u64 || !self.data_shreds.contains(
                &SlotIndex { slot, index: last_index },
            ) {
                return false;
            }
        }
        if meta.received > 0 && (meta.received - 1 > u32::MAX as u64 || !self.data_shreds.contains(
            &SlotIndex { slot, index: meta.received - 1 },
        )) {
            return false;
        }
        if meta.completed_data_indexes.contains(&u32::MAX) {
            return false;
        }
        assert(meta_backed(self@, Map::empty(), slot, meta@));
        if let Some(parent) = meta.parent_slot {
            if slot != 0 && parent >= slot {
                return false;
            }
        }
        let mut i: usize = 0;
        while i < meta.next_slots.len()
            invariant
                0 <= i <= meta.next_slots@.len(),
                forall|j: int| 0 <= j < i ==> slot < #[trigger] meta.next_slots@[j],
            decreases meta.next_slots@.len() - i,
        {
            if meta.next_slots[i] <= slot {
                assert(!(slot < meta@.next_slots[i as int]));
                assert(!links_forward(slot, meta@));
                return false;
            }
            i += 1;
        }
        true
    }

    /// Whether shreds can be inserted: the shreds that the metadata speaks of are there, its
    /// links lead forward, and the coding shreds can be read.
    pub fn is_sound(&self) -> (result: bool)
        ensures
            result == ledger_sound(self@),
    {
        let ghost metas = ordered_keys(self@.meta);
        let n: usize = self.meta.len();
        let mut i: usize = 0;
        while i < n
            invariant
                0 <= i <= n,
                n == metas.len(),
                metas == ordered_keys(self@.meta),
                forall|j: int|
                    0 <= j < i ==> meta_sound(
                        self@,
                        Map::empty(),
                        #[trigger] metas[j],
                        self@.meta[metas[j]],
                    ),
            decreases n - i,
        {
            let slot: u64 = self.meta.key_at(i);
            if !self.is_meta_sound(slot, self.meta.value_at(i)) {
                assert(!ledger_sound(self@)) by {
                    assert(self@.meta.contains_key(slot));
                }
                return false;
            }
            i += 1;
        }
        assert forall|k: u64| #[trigger] self@.meta.contains_key(k) implies meta_sound(
            self@,
            Map::empty(),
            k,
            self@.meta[k],
        ) by {
            assert(metas.contains(k));
        }
        self.has_bounded_sets() && self.has_readable_code()
    }

    /// Whether the shreds of every erasure set have indexes of 32 bits.
    fn has_bounded_sets(&self) -> (result: bool)
        ensures
            result == erasure_in_bounds(self@.erasure_meta),
    {
        let ghost keys = ordered_keys(self@.erasure_meta);
        let n: usize = self.erasure_meta.len();
        let mut i: usize = 0;
        while i < n
            invariant
                0 <= i <= n,
                n == keys.len(),
                keys == ordered_keys(self@.erasure_meta),
                forall|j: int| 0 <= j < i ==> self@.erasure_meta[#[trigger] keys[j]].in_bounds(),
            decreases n - i,
        {
            if !self.erasure_meta.value_at(i).is_in_bounds() {
                assert(self@.erasure_meta.contains_key(keys[i as int]));
                return false;
            }
            i += 1;
        }
        assert forall|k: SlotIndex| #[trigger] self@.erasure_meta.contains_key(
            k,
        ) implies self@.erasure_meta[k].in_bounds() by {
            assert(keys.contains(k));
        }
        true
    }

    /// Whether every stored coding shred can be read.
    fn has_readable_code(&self) -> (result: bool)
        ensures
            result == code_readable(self@),
    {
        let ghost keys = ordered_keys(self@.code_shreds);
        let n: usize = self.code_shreds.len();
        let mut i: usize = 0;
        while i < n
            invariant
                0 <= i <= n,
                n == keys.len(),
                keys == ordered_keys(self@.code_shreds),
                forall|j: int|
                    0 <= j < i ==> parse_shred(
                        self@.code_shreds[#[trigger] keys[j]],
                    ) is Some,
            decreases n - i,
        {
            if Shred::new_from_serialized_shred(self.code_shreds.value_at(i)).is_none() {
                assert(self@.code_shreds.contains_key(keys[i as int]));
                return false;
            }
            i += 1;
        }
        assert forall|k: SlotIndex| #[trigger] self@.code_shreds.contains_key(
            k,
        ) implies parse_shred(self@.code_shreds[k]) is Some by {
            assert(keys.contains(k));
        }
        true
    }

    /// Whether both indexes of the transaction statuses are set up, or neither is.
    pub fn has_paired_indexes(&self) -> (result: bool)
        ensures
            result == indexes_paired(self@),
    {
        !self.transaction_status_index.contains(&0) || self.transaction_status_index.contains(&1)
    }

    /// Whether the children of every slot are above it.
    pub fn has_children_above(&self) -> (result: bool)
        ensures
            result == next_slots_above(self@.meta),
    {
        let ghost keys = ordered_keys(self@.meta);
        let n: usize = self.meta.len();
        let mut i: usize = 0;
        while i < n
            invariant
                0 <= i <= n,
                n == keys.len(),
                keys == ordered_keys(self@.meta),
                forall|j: int, c: int|
                    0 <= j < i && 0 <= c < self@.meta[keys[j]].next_slots.len() ==> keys[j]
                        < #[trigger] self@.meta[keys[j]].next_slots[c],
            decreases n - i,
        {
            let slot: u64 = self.meta.key_at(i);
            let meta = self.meta.value_at(i);
            let mut c: usize = 0;
            while c < meta.next_slots.len()
                invariant
                    0 <= c <= meta.next_slots@.len(),
                    self@.meta.contains_key(slot),
                    meta@ == self@.meta[slot],
                    forall|d: int|
                        0 <= d < c ==> slot < #[trigger] self@.meta[slot].next_slots[d],
                decreases meta.next_slots@.len() - c,
            {
                if meta.next_slots[c] <= slot {
                    assert(!(slot < self@.meta[slot].next_slots[c as int]));
                    return false;
                }
                c += 1;
            }
            i += 1;
        }
        assert forall|s: u64, c: int|
            self@.meta.contains_key(s) && 0 <= c < self@.meta[s].next_slots.len() implies s
            < #[trigger] self@.meta[s].next_slots[c] by {
            assert(keys.contains(s));
            let j = choose|j: int| 0 <= j < keys.len() && keys[j] == s;
            assert(keys[j] < self@.meta[keys[j]].next_slots[c]);
        }
        true
    }

    /// Whether the shreds from index `start` to `end` can be asked for. If `all_there` is on, none
    /// may be missing.
    pub fn is_run_readable(&self, slot: Slot, start: u32, end: u32, all_there: bool) -> (result:
        bool)
        requires
            start <= end,
        ensures
            result == run_readable(self@, slot, start, end, all_there),
    {
        let n: u64 = end as u64 - start as u64 + 1;
        let mut i: u64 = 0;
        let mut ends = false;
        while i < n
            invariant
                0 <= i <= n,
                n == end - start + 1,
                start <= end,
                shreds_from(self@, slot, start as int, i as int) is Ok,
                i > 0 ==> ends == ends_run(
                    self@.data_shreds[SlotIndex { slot, index: (start + i - 1) as u64 }],
                ),
            decreases n - i,
        {
            let key = SlotIndex { slot, index: start as u64 + i };
            match self.data_shreds.get(&key) {
                None => {
                    proof {
                        lemma_shreds_from_err(self@, slot, start as int, i + 1, n as int);
                    }
                    return !all_there;
                },
                Some(bytes) => match Shred::new_from_serialized_shred(bytes) {
                    None => {
                        proof {
                            lemma_shreds_from_err(self@, slot, start as int, i + 1, n as int);
                        }
                        return true;
                    },
                    Some(shred) => {
                        assert(ends_run(bytes@) == (shred@.data_complete()
                            || shred@.last_in_slot()));
                        ends = shred.data_complete() || shred.last_in_slot();
                    },
                },
            }
            i += 1;
        }
        ends
    }

    /// Whether some runs of a slot can be asked for.
    fn has_runs(&self, slot: Slot, ranges: &Vec<(u32, u32)>) -> (result: bool)
        ensures
            result == runs_readable(self@, slot, ranges@),
    {
        let mut i: usize = 0;
        while i < ranges.len()
            invariant
                0 <= i <= ranges@.len(),
                forall|j: int|
                    0 <= j < i ==> (#[trigger] ranges@[j]).0 <= ranges@[j].1 && run_readable(
                        self@,
                        slot,
                        ranges@[j].0,
                        ranges@[j].1,
                        true,
                    ),
            decreases ranges@.len() - i,
        {
            let range: (u32, u32) = ranges[i];
            if range.0 > range.1 || !self.is_run_readable(slot, range.0, range.1, true) {
                assert(ranges@[i as int] == range);
                return false;
            }
            i += 1;
        }
        true
    }

    /// Whether, from `slot` up to the first slot below `lowest`, every parent is below its
    /// child.
    pub fn is_descending(&self, slot: Slot, lowest: Slot) -> (result: bool)
        ensures
            result == descends(self@.meta, slot, lowest as int),
    {
        let mut current: u64 = slot;
        loop
            invariant
                descends(self@.meta, slot, lowest as int) == descends(
                    self@.meta,
                    current,
                    lowest as int,
                ),
            decreases current,
        {
            if current < lowest || current == 0 {
                return true;
            }
            match self.meta.get(&current) {
                None => {
                    return true;
                },
                Some(meta) => match meta.parent_slot {
                    None => {
                        return true;
                    },
                    Some(parent) => {
                        assert(parent_of(self@.meta, current) == Some(parent));
                        if parent >= current {
                            return false;
                        }
                        current = parent;
                    },
                },
            }
        }
    }

    /// Whether the data shreds of a slot from index `start` up to `end`, excluded, and the first
    /// after them, are long enough to hold their flags.
    pub fn has_data_flags(&self, slot: Slot, start: u64, end: u64) -> (result: bool)
        ensures
            result == flags_readable(self@.data_shreds, slot, start, end),
    {
        let ghost data = self@.data_shreds;
        let ghost keys = ordered_keys(data);
        let from = SlotIndex { slot, index: start };
        let first: usize = self.data_shreds.lower_bound(&from);
        let n: usize = self.data_shreds.len();
        let mut i: usize = first;
        let mut is_last = false;
        while i < n && !is_last
            invariant
                first <= i <= n,
                n == keys.len(),
                data == self@.data_shreds,
                keys == ordered_keys(data),
                orders(keys, data),
                from == (SlotIndex { slot, index: start }),
                splits_at(keys, from, first as int),
                forall|j: int|
                    first <= j < i ==> data[#[trigger] keys[j]].len() > OFFSET_OF_DATA_FLAGS,
                !is_last ==> forall|j: int|
                    first <= j < i ==> (#[trigger] keys[j]).slot == slot && keys[j].index < end,
                is_last ==> first < i && !(keys[i - 1].slot == slot && keys[i - 1].index < end),
            decreases n - i,
        {
            let key = self.data_shreds.key_at(i);
            if self.data_shreds.value_at(i).len() <= OFFSET_OF_DATA_FLAGS {
                proof {
                    lemma_in_reach(data, keys, slot, start, end, first as int, i as int);
                }
                return false;
            }
            is_last = key.slot != slot || key.index >= end;
            i += 1;
        }
        assert forall|k: SlotIndex| #[trigger] in_reach(data, slot, start, end, k) implies data[k].len()
            > OFFSET_OF_DATA_FLAGS by {
            assert(keys.contains(k));
            let j = choose|j: int| 0 <= j < keys.len() && keys[j] == k;
            assert(j >= first);
            if j >= i {
                assert(keys[i - 1].before(keys[j]));
                assert(keys.contains(keys[i - 1]));
                assert(data.contains_key(keys[i - 1]) && !keys[i - 1].before(from));
            }
        }
        true
    }
}

impl Blockstore {
    /// Whether a shred of a batch may be handed in: it is refused, or can be stored.
    fn is_step_allowed(
        &self,
        state: &InsertionState,
        shred: &Shred,
        is_repaired: bool,
        is_trusted: bool,
        now: u64,
    ) -> (result: bool)
        ensures
            result == step_allowed(
                Progress { store: self@, state: state@ },
                shred@,
                is_repaired,
                is_trusted,
                now,
            ),
    {
        if shred.is_data() {
            let shred_source = if is_repaired {
                ShredSource::Repaired
            } else {
                ShredSource::Turbine
            };
            return self.is_data_allowed(state, shred, is_trusted, shred_source, now);
        }
        if !is_trusted || shred.sanitize() {
            return true;
        }
        let key = SlotIndex { slot: shred.slot(), index: shred.fec_set_index() as u64 };
        match state.erasure_metas.get(&key) {
            Some(meta) => !shred.agrees_with(meta),
            None => match self.ledger.erasure_meta.get(&key) {
                Some(meta) => !shred.agrees_with(meta),
                None => false,
            },
        }
    }

    /// Whether a batch of shreds may be handed in: each is refused, or can be stored. The store
    /// is left as it was.
    pub fn is_batch_allowed(
        &mut self,
        shreds: &Vec<Shred>,
        is_repaired: &Vec<bool>,
        is_trusted: bool,
        now: u64,
        metrics: BlockstoreInsertionMetrics,
    ) -> (result: bool)
        requires
            shreds@.len() == is_repaired@.len(),
            ledger_sound(old(self)@.ledger),
        ensures
            result == batch_allowed(
                old(self)@,
                shred_views(shreds@),
                is_repaired@,
                is_trusted,
                now,
                metrics,
            ),
            final(self)@ == old(self)@,
    {
        let n: usize = shreds.len();
        let ghost views = shred_views(shreds@);
        let ghost store0 = self@;
        let proofs = self.ledger.duplicate_slots.duplicate();
        let num_batches: usize = self.journal.len();
        let stats = self.slots_stats.duplicate();
        let last_stats_cleanup: u64 = self.last_stats_cleanup;
        let mut counters = metrics;
        counters.num_shreds = bump(metrics.num_shreds, n);
        let mut state = InsertionState::new(counters);
        let ghost p0 = Progress { store: self@, state: state@ };
        proof {
            lemma_start_sound(self@.ledger, counters);
            assert(views.take(0) =~= Seq::empty());
            assert(self@.journal.take(num_batches as int) =~= store0.journal);
        }
        let mut allowed = true;
        let mut i: usize = 0;
        while i < n && allowed
            invariant
                0 <= i <= n,
                n == shreds@.len(),
                n == is_repaired@.len(),
                views == shred_views(shreds@),
                store0 == p0.store,
                num_batches == store0.journal.len(),
                allowed ==> steps_allowed(
                    p0,
                    views.take(i as int),
                    is_repaired@,
                    is_trusted,
                    now,
                ),
                allowed ==> (Progress { store: self@, state: state@ }) == batch_steps(
                    p0,
                    views.take(i as int),
                    is_repaired@,
                    is_trusted,
                    now,
                ),
                !allowed ==> !steps_allowed(p0, views, is_repaired@, is_trusted, now),
                same_but_duplicates(store0.ledger, self@.ledger),
                same_but_counts(store0, self@),
                ledger_sound(self@.ledger),
                state_sound(self@.ledger, state@),
            decreases n - i,
        {
            let shred = shreds[i].duplicate();
            let ghost p = Progress { store: self@, state: state@ };
            proof {
                assert(shred@ == views[i as int]);
                assert(views.take(i + 1).drop_last() =~= views.take(i as int));
                assert(views.take(i + 1).last() == shred@);
            }
            if self.is_step_allowed(&state, &shred, is_repaired[i], is_trusted, now) {
                proof {
                    lemma_step_keeps_counts(
                        p,
                        shred@,
                        is_repaired@[i as int],
                        is_trusted,
                        now,
                        i,
                    );
                    lemma_same_but_counts(store0, p.store, batch_step(
                        p,
                        shred@,
                        is_repaired@[i as int],
                        is_trusted,
                        now,
                        i,
                    ).store);
                }
                self.receive_shred(&mut state, shred, is_repaired[i], is_trusted, now, i);
            } else {
                allowed = false;
                proof {
                    if steps_allowed(p0, views, is_repaired@, is_trusted, now) {
                        lemma_steps_allowed_prefix(
                            p0,
                            views,
                            is_repaired@,
                            is_trusted,
                            now,
                            i as int,
                        );
                    }
                }
            }
            i += 1;
        }
        assert(views.take(n as int) =~= views);
        self.ledger.duplicate_slots = proofs;
        self.journal.truncate(num_batches);
        self.slots_stats = stats;
        self.last_stats_cleanup = last_stats_cleanup;
        assert(self@.journal =~= store0.journal);
        allowed
    }

    /// Whether the entries of a slot can be asked for: its runs can be told, and, unless the
    /// slot is dead and `allow_dead_slots` is off, their shreds are there.
    pub fn is_slot_readable(&self, slot: Slot, start_index: u64, allow_dead_slots: bool) -> (result:
        bool)
        ensures
            result == slot_readable(self@, slot, start_index, allow_dead_slots),
    {
        if self.check_lowest_cleanup_slot(slot).is_err() {
            return true;
        }
        match self.ledger.meta.get(&slot) {
            None => true,
            Some(meta) => {
                let start: u32 = truncate_u64(start_index);
                let consumed: u32 = truncate_u64(meta.consumed);
                if start > consumed || meta.completed_data_indexes.contains(&consumed) {
                    return false;
                }
                let ranges = Blockstore::get_completed_data_ranges(
                    start,
                    &meta.completed_data_indexes,
                    consumed,
                );
                if ranges.len() > 0 && start_index > u32::MAX as u64 {
                    return false;
                }
                assert(ranges_valid(self@.ledger, slot, start_index));
                (self.is_dead(slot) && !allow_dead_slots) || self.ledger.has_runs(slot, &ranges)
            },
        }
    }

    /// Whether the block of a slot can be asked for: the entries of a full slot can be, and, if
    /// there are some, those of its parent too, which has to be known where the block is given
    /// out.
    pub fn is_block_readable(&self, slot: Slot, require_previous_blockhash: bool) -> (result: bool)
        ensures
            result == block_readable(self@, slot, require_previous_blockhash),
    {
        match self.ledger.meta.get(&slot) {
            None => true,
            Some(meta) => {
                if !meta.is_full() {
                    return true;
                }
                if !self.is_slot_readable(slot, 0, false) {
                    return false;
                }
                match self.get_slot_entries(slot, 0) {
                    Err(_) => true,
                    Ok(entries) => entries.len() == 0 || match meta.parent_slot {
                        None => require_previous_blockhash,
                        Some(parent) => self.is_slot_readable(parent, 0, false),
                    },
                }
            },
        }
    }

    /// Whether a transaction can be asked for: the entries of the slot of its status can be.
    pub fn is_transaction_readable(&self, signature: Signature, unrooted: &Vec<Slot>) -> (result:
        bool)
        ensures
            result == transaction_readable(self@, signature, unrooted@),
    {
        if self.lowest_cleanup_slot == u64::MAX {
            return false;
        }
        match self.get_transaction_status(signature, unrooted) {
            None => true,
            Some(found) => self.is_slot_readable(found.0, 0, false),
        }
    }

    /// Whether a status of a slot can be written: the active index is set up, and it is not
    /// frozen where the slot is above all of its slots.
    pub fn is_status_writable(&self, slot: Slot) -> (result: bool)
        ensures
            result == can_write_status(self@, slot),
    {
        match self.ledger.transaction_status_index.get(&self.active_transaction_status_index) {
            None => false,
            Some(index) => slot <= index.max_slot || !index.frozen,
        }
    }

    /// Whether the primary index other than the active one is set up.
    pub fn has_other_index(&self) -> (result: bool)
        ensures
            result == self@.ledger.transaction_status_index.contains_key(
                other_index(self@.active_transaction_status_index),
            ),
    {
        let other: u64 = if self.active_transaction_status_index == 0 {
            1
        } else {
            0
        };
        self.ledger.transaction_status_index.contains(&other)
    }

    /// Whether a payload can be compared with the shred at its place: there is none, or the
    /// payload can be read as a shred.
    pub fn is_shred_comparable(
        &self,
        slot: Slot,
        index: u32,
        shred_type: ShredType,
        payload: &Vec<u8>,
    ) -> (result: bool)
        ensures
            result == (holds_shred(self@.ledger, slot, index, shred_type) ==> parse_shred(
                filled(payload@),
            ) is Some),
    {
        let key = SlotIndex { slot, index: index as u64 };
        let known = match shred_type {
            ShredType::Data => self.ledger.data_shreds.contains(&key),
            ShredType::Code => self.ledger.code_shreds.contains(&key),
        };
        !known || Shred::new_from_serialized_shred(&fill_payload(payload)).is_some()
    }
}

} // verus!
