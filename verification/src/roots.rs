//! What the columns say of slots: metadata, roots, dead slots, duplicate slots and bank hashes.

use vstd::prelude::*;
use crate::blockstore::{Blockstore, BlockstoreView};
use crate::column::{
    greatest, keys_at_or_above, keys_from, least, lemma_least, lists, Column, ColumnKey, Duplicate,
    SlotIndex,
};
use crate::insertion::filled;
use crate::ledger::{op_in_range, op_views, LedgerView, WriteOp, WriteOpView};
use crate::meta::{ErasureMeta, FrozenHashStatus, SlotMeta, SlotMetaView};
use crate::shred::{pad_payload, padded, parse_shred, ShredType};
use crate::slot_update::optional_meta;
use crate::types::{Blockhash, Slot};

verus! {

/// The slot is rooted.
pub open spec fn rooted(ledger: LedgerView, slot: Slot) -> bool {
    ledger.roots.contains_key(slot) && ledger.roots[slot]
}

/// The number, or 0.
pub open spec fn or_zero(n: Option<u64>) -> u64 {
    match n {
        Some(k) => k,
        None => 0,
    }
}

/// The slots other than 0 of which a shred has been received.
pub open spec fn slots_with_data(ledger: LedgerView) -> Set<u64> {
    ledger.meta.dom().filter(|k: u64| k > 0 && ledger.meta[k].received > 0)
}

/// The lowest slot other than 0 of which a shred has been received, or the last root.
pub open spec fn lowest_slot(store: BlockstoreView) -> Slot {
    match least(slots_with_data(store.ledger)) {
        Some(k) => k,
        None => store.last_root,
    }
}

/// The lowest root that is not below the lowest slot with data, or 0.
pub open spec fn first_available_block(store: BlockstoreView) -> Slot {
    or_zero(least(keys_at_or_above(store.ledger.roots, lowest_slot(store))))
}

/// The slot lies between the lowest and the highest root, but is not rooted itself.
pub open spec fn skipped(ledger: LedgerView, slot: Slot) -> bool {
    !ledger.roots.contains_key(slot) && or_zero(least(keys_at_or_above(ledger.roots, 0))) < slot
        < or_zero(greatest(ledger.roots.dom()))
}

/// The parent of a slot, as far as it is known. Slot 0 has none.
pub open spec fn parent_of(metas: Map<u64, SlotMetaView>, slot: Slot) -> Option<Slot> {
    if slot != 0 && metas.contains_key(slot) {
        metas[slot].parent_slot
    } else {
        None
    }
}

/// From `slot` up to the first slot below `lowest`, every parent is below its child.
pub open spec fn descends(metas: Map<u64, SlotMetaView>, slot: Slot, lowest: int) -> bool
    decreases slot,
{
    slot < lowest || match parent_of(metas, slot) {
        None => true,
        Some(parent) => parent < slot && descends(metas, parent, lowest),
    }
}

/// `slot`, its parent, the parent of that and so on, down to the last that is not below
/// `lowest`.
pub open spec fn ancestry(metas: Map<u64, SlotMetaView>, slot: Slot, lowest: int) -> Seq<Slot>
    decreases slot,
{
    if slot < lowest {
        Seq::empty()
    } else {
        match parent_of(metas, slot) {
            Some(parent) => if parent < slot {
                seq![slot] + ancestry(metas, parent, lowest)
            } else {
                seq![slot]
            },
            None => seq![slot],
        }
    }
}

/// The slots above the last root that `highest` builds on, `highest` first.
pub open spec fn confirmed_unrooted(store: BlockstoreView, highest: Slot) -> Seq<Slot> {
    if store.ledger.meta.contains_key(highest) {
        ancestry(store.ledger.meta, highest, store.last_root + 1)
    } else {
        Seq::empty()
    }
}

/// The ancestors of the last root that are not below the lowest cleanup slot, highest first.
pub open spec fn root_ancestors(store: BlockstoreView) -> Seq<Slot> {
    match parent_of(store.ledger.meta, store.last_root) {
        None => Seq::empty(),
        Some(parent) => ancestry(store.ledger.meta, parent, store.lowest_cleanup_slot as int),
    }
}

/// The slots in `slots` that are not rooted.
pub open spec fn unrooted(ledger: LedgerView, slots: Seq<Slot>) -> Seq<Slot>
    decreases slots.len(),
{
    if slots.len() == 0 {
        Seq::empty()
    } else {
        let earlier = unrooted(ledger, slots.drop_last());
        if rooted(ledger, slots.last()) {
            earlier
        } else {
            earlier.push(slots.last())
        }
    }
}

proof fn lemma_unrooted_grows(ledger: LedgerView, slots: Seq<Slot>, n: int)
    requires
        0 <= n <= slots.len(),
    ensures
        unrooted(ledger, slots.take(n)).len() <= unrooted(ledger, slots).len(),
    decreases slots.len() - n,
{
    if n == slots.len() {
        assert(slots.take(n) =~= slots);
    } else {
        assert(slots.take(n + 1).drop_last() =~= slots.take(n));
        lemma_unrooted_grows(ledger, slots, n + 1);
    }
}

/// The ancestors of the last root that are not rooted and not below the lowest cleanup slot.
pub open spec fn missing_roots(store: BlockstoreView) -> Seq<Slot> {
    unrooted(store.ledger, root_ancestors(store))
}

/// A write for each root.
pub open spec fn root_writes(slots: Seq<Slot>) -> Seq<WriteOpView> {
    Seq::new(slots.len(), |i: int| WriteOpView::PutRoot(slots[i], true))
}

/// The highest of `slots`, or 0.
pub open spec fn highest_of(slots: Seq<Slot>) -> Slot
    decreases slots.len(),
{
    if slots.len() == 0 {
        0
    } else {
        let h = highest_of(slots.drop_last());
        if h < slots.last() {
            slots.last()
        } else {
            h
        }
    }
}

/// There is a shred of a kind at an index of a slot.
pub open spec fn holds_shred(
    ledger: LedgerView,
    slot: Slot,
    index: u32,
    shred_type: ShredType,
) -> bool {
    let key = SlotIndex { slot, index: index as u64 };
    match shred_type {
        ShredType::Data => ledger.data_shreds.contains_key(key),
        ShredType::Code => ledger.code_shreds.contains_key(key),
    }
}

impl BlockstoreView {
    /// The store after `slots` were rooted. The last root never goes back, but for the mark
    /// that there is none.
    pub open spec fn with_roots(self, slots: Seq<Slot>) -> Self {
        let last = if self.last_root == u64::MAX {
            0
        } else {
            self.last_root
        };
        BlockstoreView {
            last_root: if highest_of(slots) > last {
                highest_of(slots)
            } else {
                last
            },
            ..self.commit(root_writes(slots))
        }
    }

    /// The store after the first `n` runs of at most 100 of `slots` were rooted, one run after
    /// the other.
    pub open spec fn with_root_runs(self, slots: Seq<Slot>, n: nat) -> Self
        decreases n,
    {
        if n == 0 {
            self
        } else {
            self.with_root_runs(slots, (n - 1) as nat).with_roots(
                slots.subrange(
                    (n - 1) * 100,
                    if n * 100 < slots.len() {
                        (n * 100) as int
                    } else {
                        slots.len() as int
                    },
                ),
            )
        }
    }

    /// The store after the hash of a frozen bank came. A hash that is confirmed already stays.
    pub open spec fn with_bank_hash(self, slot: Slot, hash: Blockhash, confirmed: bool) -> Self {
        if self.ledger.bank_hash.contains_key(slot) && self.ledger.bank_hash[slot].frozen_hash
            == hash && self.ledger.bank_hash[slot].is_duplicate_confirmed {
            self
        } else {
            self.commit_one(
                WriteOpView::PutBankHash(
                    slot,
                    FrozenHashStatus { frozen_hash: hash, is_duplicate_confirmed: confirmed },
                ),
            )
        }
    }
}

/// How many runs of at most 100 `n` things make.
pub open spec fn runs_of_100(n: int) -> int {
    (n + 99) / 100
}

/// A write for each confirmed hash.
pub open spec fn confirmed_hash_writes(hashes: Seq<(Slot, Blockhash)>) -> Seq<WriteOpView> {
    Seq::new(
        hashes.len(),
        |i: int|
            WriteOpView::PutBankHash(
                hashes[i].0,
                FrozenHashStatus { frozen_hash: hashes[i].1, is_duplicate_confirmed: true },
            ),
    )
}

impl Blockstore {
    /// What is known of a slot.
    pub fn meta(&self, slot: Slot) -> (result: Option<SlotMeta>)
        ensures
            optional_meta(result) == if self@.ledger.meta.contains_key(slot) {
                Some(self@.ledger.meta[slot])
            } else {
                None
            },
    {
        match self.ledger.meta.get(&slot) {
            Some(meta) => Some(meta.duplicate()),
            None => None,
        }
    }

    /// Whether every shred of a slot has been received.
    pub fn is_full(&self, slot: Slot) -> (result: bool)
        ensures
            result == (self@.ledger.meta.contains_key(slot) && self@.ledger.meta[slot].is_full()),
    {
        match self.ledger.meta.get(&slot) {
            Some(meta) => meta.is_full(),
            None => false,
        }
    }

    /// What is known of an erasure set.
    pub fn erasure_meta(&self, slot: Slot, set_index: u64) -> (result: Option<ErasureMeta>)
        ensures
            result == if self@.ledger.erasure_meta.contains_key(
                SlotIndex { slot, index: set_index },
            ) {
                Some(self@.ledger.erasure_meta[SlotIndex { slot, index: set_index }])
            } else {
                None
            },
    {
        match self.ledger.erasure_meta.get(&SlotIndex { slot, index: set_index }) {
            Some(meta) => Some(*meta),
            None => None,
        }
    }

    /// The orphan mark of a slot.
    pub fn orphan(&self, slot: Slot) -> (result: Option<bool>)
        ensures
            result == if self@.ledger.orphans.contains_key(slot) {
                Some(self@.ledger.orphans[slot])
            } else {
                None
            },
    {
        match self.ledger.orphans.get(&slot) {
            Some(mark) => Some(*mark),
            None => None,
        }
    }

    /// The highest root, or 0.
    pub fn max_root(&self) -> (result: Slot)
        ensures
            result == or_zero(greatest(self@.ledger.roots.dom())),
    {
        match self.ledger.roots.last_key() {
            Some(slot) => slot,
            None => 0,
        }
    }

    /// The slots at or above `slot` that something is known of, with what is known.
    pub fn slot_meta_iterator(&self, slot: Slot) -> (result: Vec<(Slot, SlotMeta)>)
        ensures
            result@.len() == keys_from(self@.ledger.meta, slot).len(),
            forall|i: int|
                0 <= i < result@.len() ==> (#[trigger] result@[i]).0 == keys_from(
                    self@.ledger.meta,
                    slot,
                )[i] && result@[i].1@ == self@.ledger.meta[result@[i].0],
            lists(
                keys_from(self@.ledger.meta, slot),
                keys_at_or_above(self@.ledger.meta, slot),
            ),
    {
        let keys = self.ledger.meta.keys_from(slot);
        let mut result: Vec<(Slot, SlotMeta)> = Vec::new();
        let mut i: usize = 0;
        while i < keys.len()
            invariant
                0 <= i <= keys@.len(),
                result@.len() == i,
                keys@ == keys_from(self@.ledger.meta, slot),
                lists(keys@, keys_at_or_above(self@.ledger.meta, slot)),
                forall|j: int|
                    0 <= j < i ==> (#[trigger] result@[j]).0 == keys@[j] && result@[j].1@
                        == self@.ledger.meta[keys@[j]],
            decreases keys@.len() - i,
        {
            let k: u64 = keys[i];
            assert(keys@.contains(k));
            assert(keys_at_or_above(self@.ledger.meta, slot).contains(k));
            match self.ledger.meta.get(&k) {
                Some(meta) => result.push((k, meta.duplicate())),
                None => {
                    assert(false);
                },
            }
            i += 1;
        }
        result
    }

    /// The roots at or above `slot`.
    pub fn rooted_slot_iterator(&self, slot: Slot) -> (result: Vec<Slot>)
        ensures
            result@ == keys_from(self@.ledger.roots, slot),
            lists(result@, keys_at_or_above(self@.ledger.roots, slot)),
    {
        self.ledger.roots.keys_from(slot)
    }

    /// The orphans at or above `slot`.
    pub fn orphans_iterator(&self, slot: Slot) -> (result: Vec<Slot>)
        ensures
            result@ == keys_from(self@.ledger.orphans, slot),
            lists(result@, keys_at_or_above(self@.ledger.orphans, slot)),
    {
        self.ledger.orphans.keys_from(slot)
    }

    /// The slots at or above `slot` that are marked dead or once were marked.
    pub fn dead_slots_iterator(&self, slot: Slot) -> (result: Vec<Slot>)
        ensures
            result@ == keys_from(self@.ledger.dead_slots, slot),
            lists(result@, keys_at_or_above(self@.ledger.dead_slots, slot)),
    {
        self.ledger.dead_slots.keys_from(slot)
    }

    /// The slots at or above `slot` that are known to have two versions.
    pub fn duplicate_slots_iterator(&self, slot: Slot) -> (result: Vec<Slot>)
        ensures
            result@ == keys_from(self@.ledger.duplicate_slots, slot),
            lists(result@, keys_at_or_above(self@.ledger.duplicate_slots, slot)),
    {
        self.ledger.duplicate_slots.keys_from(slot)
    }

    /// Whether the slot is rooted.
    pub fn is_root(&self, slot: Slot) -> (result: bool)
        ensures
            result == rooted(self@.ledger, slot),
    {
        match self.ledger.roots.get(&slot) {
            Some(is_root) => *is_root,
            None => false,
        }
    }

    /// Whether the slot lies between the lowest and the highest root, but is not rooted itself:
    /// it was skipped, or there is a gap in the ledger.
    pub fn is_skipped(&self, slot: Slot) -> (result: bool)
        ensures
            result == skipped(self@.ledger, slot),
    {
        let zero: u64 = 0;
        let lowest_root: u64 = match self.ledger.roots.first_from(zero) {
            Some(root) => root,
            None => 0,
        };
        if self.ledger.roots.contains(&slot) {
            false
        } else {
            slot < self.max_root() && slot > lowest_root
        }
    }

    /// Keeps the hash of a frozen bank. A hash that is confirmed already stays confirmed.
    pub fn insert_bank_hash(
        &mut self,
        slot: Slot,
        frozen_hash: Blockhash,
        is_duplicate_confirmed: bool,
    )
        ensures
            final(self)@ == old(self)@.with_bank_hash(slot, frozen_hash, is_duplicate_confirmed),
    {
        if let Some(prev) = self.ledger.bank_hash.get(&slot) {
            if prev.frozen_hash == frozen_hash && prev.is_duplicate_confirmed {
                return;
            }
        }
        self.commit_one(
            WriteOp::PutBankHash(slot, FrozenHashStatus { frozen_hash, is_duplicate_confirmed }),
        );
    }

    /// The hash of the frozen bank of a slot.
    pub fn get_bank_hash(&self, slot: Slot) -> (result: Option<Blockhash>)
        ensures
            result == if self@.ledger.bank_hash.contains_key(slot) {
                Some(self@.ledger.bank_hash[slot].frozen_hash)
            } else {
                None
            },
    {
        match self.ledger.bank_hash.get(&slot) {
            Some(status) => Some(status.frozen_hash),
            None => None,
        }
    }

    /// Whether the hash of the frozen bank of a slot is confirmed.
    pub fn is_duplicate_confirmed(&self, slot: Slot) -> (result: bool)
        ensures
            result == (self@.ledger.bank_hash.contains_key(slot)
                && self@.ledger.bank_hash[slot].is_duplicate_confirmed),
    {
        match self.ledger.bank_hash.get(&slot) {
            Some(status) => status.is_duplicate_confirmed,
            None => false,
        }
    }

    /// Keeps confirmed hashes, in one write.
    pub fn set_duplicate_confirmed_slots_and_hashes(
        &mut self,
        duplicate_confirmed_slot_hashes: &Vec<(Slot, Blockhash)>,
    )
        ensures
            final(self)@ == old(self)@.commit(
                confirmed_hash_writes(duplicate_confirmed_slot_hashes@),
            ),
    {
        let mut write_batch: Vec<WriteOp> = Vec::new();
        let ghost all = confirmed_hash_writes(duplicate_confirmed_slot_hashes@);
        let mut i: usize = 0;
        assert(op_views(write_batch@) =~= all.take(0));
        while i < duplicate_confirmed_slot_hashes.len()
            invariant
                0 <= i <= duplicate_confirmed_slot_hashes@.len(),
                all == confirmed_hash_writes(duplicate_confirmed_slot_hashes@),
                op_views(write_batch@) == all.take(i as int),
                forall|j: int|
                    0 <= j < write_batch@.len() ==> op_in_range(#[trigger] write_batch@[j]@),
            decreases duplicate_confirmed_slot_hashes@.len() - i,
        {
            let (slot, frozen_hash) = duplicate_confirmed_slot_hashes[i];
            let ghost ops = op_views(write_batch@);
            write_batch.push(
                WriteOp::PutBankHash(
                    slot,
                    FrozenHashStatus { frozen_hash, is_duplicate_confirmed: true },
                ),
            );
            assert(op_views(write_batch@) =~= ops.push(all[i as int]));
            assert(op_views(write_batch@) =~= all.take(i + 1));
            i += 1;
        }
        assert(all.take(duplicate_confirmed_slot_hashes@.len() as int) =~= all);
        self.commit(write_batch);
    }

    /// Roots slots, in one write. The last root becomes the highest of them, if that is higher.
    pub fn set_roots(&mut self, rooted_slots: &Vec<Slot>)
        ensures
            final(self)@ == old(self)@.with_roots(rooted_slots@),
    {
        let mut write_batch: Vec<WriteOp> = Vec::new();
        let mut max_new_rooted_slot: u64 = 0;
        let ghost all = root_writes(rooted_slots@);
        let mut i: usize = 0;
        assert(op_views(write_batch@) =~= all.take(0));
        assert(rooted_slots@.take(0) =~= Seq::empty());
        while i < rooted_slots.len()
            invariant
                0 <= i <= rooted_slots@.len(),
                all == root_writes(rooted_slots@),
                op_views(write_batch@) == all.take(i as int),
                max_new_rooted_slot == highest_of(rooted_slots@.take(i as int)),
                forall|j: int|
                    0 <= j < write_batch@.len() ==> op_in_range(#[trigger] write_batch@[j]@),
            decreases rooted_slots@.len() - i,
        {
            let slot: u64 = rooted_slots[i];
            let ghost ops = op_views(write_batch@);
            proof {
                assert(rooted_slots@.take(i + 1).drop_last() =~= rooted_slots@.take(i as int));
                assert(rooted_slots@.take(i + 1).last() == slot);
            }
            if max_new_rooted_slot < slot {
                max_new_rooted_slot = slot;
            }
            write_batch.push(WriteOp::PutRoot(slot, true));
            assert(op_views(write_batch@) =~= ops.push(all[i as int]));
            assert(op_views(write_batch@) =~= all.take(i + 1));
            i += 1;
        }
        assert(all.take(rooted_slots@.len() as int) =~= all);
        assert(rooted_slots@.take(rooted_slots@.len() as int) =~= rooted_slots@);
        self.commit(write_batch);
        if self.last_root == u64::MAX {
            self.last_root = 0;
        }
        if max_new_rooted_slot > self.last_root {
            self.last_root = max_new_rooted_slot;
        }
    }

    /// Marks a slot dead.
    pub fn set_dead_slot(&mut self, slot: Slot)
        ensures
            final(self)@ == old(self)@.commit_one(WriteOpView::PutDeadSlot(slot, true)),
            final(self)@.ledger == old(self)@.ledger.apply(WriteOpView::PutDeadSlot(slot, true)),
    {
        self.commit_one(WriteOp::PutDeadSlot(slot, true));
    }

    /// Takes the dead mark off a slot.
    pub fn remove_dead_slot(&mut self, slot: Slot)
        ensures
            final(self)@ == old(self)@.commit_one(WriteOpView::DeleteDeadSlot(slot)),
            final(self)@.ledger == old(self)@.ledger.apply(WriteOpView::DeleteDeadSlot(slot)),
    {
        self.commit_one(WriteOp::DeleteDeadSlot(slot));
    }

    /// The shred that is kept at the place of a new one, if the two differ. The payload is that
    /// of a shred with the given slot, index and kind.
    pub fn is_shred_duplicate(
        &self,
        slot: Slot,
        index: u32,
        shred_type: ShredType,
        payload: Vec<u8>,
    ) -> (result: Option<Vec<u8>>)
        requires
            holds_shred(self@.ledger, slot, index, shred_type) ==> parse_shred(
                filled(payload@),
            ) is Some,
        ensures
            ({
                let key = SlotIndex { slot, index: index as u64 };
                let known = holds_shred(self@.ledger, slot, index, shred_type);
                let existing = match shred_type {
                    ShredType::Data => filled(self@.ledger.data_shreds[key]),
                    ShredType::Code => self@.ledger.code_shreds[key],
                };
                &&& result is Some <==> known && existing != padded(payload@)
                &&& result is Some ==> result->0@ == existing
            }),
    {
        let existing_shred = match shred_type {
            ShredType::Data => self.get_data_shred(slot, index as u64),
            ShredType::Code => self.get_coding_shred(slot, index as u64),
        };
        match existing_shred {
            None => None,
            Some(existing) => {
                let new_payload = pad_payload(&payload);
                if same_bytes(&existing, &new_payload) {
                    None
                } else {
                    Some(existing)
                }
            },
        }
    }

    /// The last root.
    pub fn last_root(&self) -> (result: Slot)
        ensures
            result == self@.last_root,
    {
        self.last_root
    }

    /// The lowest slot other than 0 of which a shred has been received, or the last root.
    pub fn lowest_slot(&self) -> (result: Slot)
        ensures
            result == lowest_slot(self@),
    {
        let zero: u64 = 0;
        let keys = self.ledger.meta.keys_from(zero);
        let ghost set = slots_with_data(self@.ledger);
        let mut i: usize = 0;
        while i < keys.len()
            invariant
                0 <= i <= keys@.len(),
                set == slots_with_data(self@.ledger),
                lists(keys@, keys_at_or_above(self@.ledger.meta, 0)),
                forall|j: int| 0 <= j < i ==> !set.contains(#[trigger] keys@[j]),
            decreases keys@.len() - i,
        {
            let slot: u64 = keys[i];
            assert(keys@.contains(slot));
            assert(keys_at_or_above(self@.ledger.meta, 0).contains(slot));
            let has_data = match self.ledger.meta.get(&slot) {
                Some(meta) => slot > 0 && meta.received > 0,
                None => false,
            };
            if has_data {
                proof {
                    assert(set.contains(slot));
                    assert forall|j: u64| #[trigger] set.contains(j) implies slot <= j by {
                        assert(keys_at_or_above(self@.ledger.meta, 0).contains(j));
                        assert(keys@.contains(j));
                        let p = choose|p: int| 0 <= p < keys@.len() && keys@[p] == j;
                        if p < i {
                            assert(!set.contains(keys@[p]));
                        } else if p > i {
                            assert(ColumnKey::before(keys@[i as int], keys@[p]));
                        }
                    }
                    lemma_least(set, slot);
                }
                return slot;
            }
            i += 1;
        }
        proof {
            assert forall|j: u64| !set.contains(j) by {
                if set.contains(j) {
                    assert(keys_at_or_above(self@.ledger.meta, 0).contains(j));
                    assert(keys@.contains(j));
                    let p = choose|p: int| 0 <= p < keys@.len() && keys@[p] == j;
                    assert(!set.contains(keys@[p]));
                }
            }
        }
        self.last_root()
    }

    /// The slot up to which everything has been, or is being, purged.
    pub fn lowest_cleanup_slot(&self) -> (result: Slot)
        ensures
            result == self@.lowest_cleanup_slot,
    {
        self.lowest_cleanup_slot
    }

    /// The lowest root that is not below the lowest slot with data, or 0.
    pub fn get_first_available_block(&self) -> (result: Slot)
        ensures
            result == first_available_block(self@),
    {
        let lowest: u64 = self.lowest_slot();
        match self.ledger.roots.first_from(lowest) {
            Some(slot) => slot,
            None => 0,
        }
    }

    /// `slot`, its parent, the parent of that and so on, down to the last that is not below
    /// `lowest`. There is no slot below `lowest` where it is `None`.
    fn collect_ancestors(&self, slot: Slot, lowest: Option<Slot>) -> (result: Vec<Slot>)
        requires
            descends(self@.ledger.meta, slot, lowest_bound(lowest)),
        ensures
            result@ == ancestry(self@.ledger.meta, slot, lowest_bound(lowest)),
    {
        let mut result: Vec<Slot> = Vec::new();
        let mut current: u64 = slot;
        let ghost low = lowest_bound(lowest);
        let ghost metas = self@.ledger.meta;
        let ghost all = ancestry(metas, slot, low);
        assert(result@ + all =~= all);
        loop
            invariant_except_break
                descends(metas, current, low),
                result@ + ancestry(metas, current, low) == all,
            invariant
                metas == self@.ledger.meta,
                low == lowest_bound(lowest),
                all == ancestry(metas, slot, low),
            ensures
                result@ == all,
            decreases current,
        {
            let below = match lowest {
                Some(bound) => current < bound,
                None => true,
            };
            if below {
                assert(result@ + ancestry(metas, current, low) =~= result@);
                break;
            }
            let ghost before = result@;
            result.push(current);
            let parent: Option<Slot> = if current == 0 {
                None
            } else {
                match self.ledger.meta.get(&current) {
                    Some(meta) => meta.parent_slot,
                    None => None,
                }
            };
            match parent {
                None => {
                    assert(before + seq![current] =~= result@);
                    break;
                },
                Some(p) => {
                    assert(before + (seq![current] + ancestry(metas, p, low)) =~= result@
                        + ancestry(metas, p, low));
                    current = p;
                },
            }
        }
        result
    }

    /// The slots above the last root that `highest` builds on, `highest` first.
    pub fn get_confirmed_unrooted_slots(&self, highest: Slot) -> (result: Vec<Slot>)
        requires
            self@.ledger.meta.contains_key(highest) ==> descends(
                self@.ledger.meta,
                highest,
                self@.last_root + 1,
            ),
        ensures
            result@ == confirmed_unrooted(self@, highest),
    {
        if self.ledger.meta.contains(&highest) {
            if self.last_root == u64::MAX {
                self.collect_ancestors(highest, None)
            } else {
                self.collect_ancestors(highest, Some(self.last_root + 1))
            }
        } else {
            let none: Vec<Slot> = Vec::new();
            assert(none@ =~= Seq::empty());
            none
        }
    }

    /// The ancestors of the last root that are not rooted and not below the lowest cleanup slot.
    /// `exit` is asked at each of them, and stops the search.
    pub fn find_missing_roots<F: Fn() -> bool>(&self, exit: &F) -> (result: Option<Vec<Slot>>)
        requires
            parent_of(self@.ledger.meta, self@.last_root) matches Some(parent) ==> descends(
                self@.ledger.meta,
                parent,
                self@.lowest_cleanup_slot as int,
            ),
            call_requires(*exit, ()),
        ensures
            match result {
                Some(slots) => slots@ == missing_roots(self@) && (slots@.len() > 0
                    ==> call_ensures(*exit, (), false)),
                None => missing_roots(self@).len() > 0 && call_ensures(*exit, (), true),
            },
    {
        let parent: Option<Slot> = if self.last_root == 0 {
            None
        } else {
            match self.ledger.meta.get(&self.last_root) {
                Some(meta) => meta.parent_slot,
                None => None,
            }
        };
        let slots = match parent {
            None => Vec::new(),
            Some(parent) => self.collect_ancestors(parent, Some(self.lowest_cleanup_slot)),
        };
        assert(slots@ =~= root_ancestors(self@));
        let mut result: Vec<Slot> = Vec::new();
        let mut i: usize = 0;
        assert(slots@.take(0) =~= Seq::empty());
        while i < slots.len()
            invariant
                0 <= i <= slots@.len(),
                slots@ == root_ancestors(self@),
                call_requires(*exit, ()),
                result@ == unrooted(self@.ledger, slots@.take(i as int)),
                result@.len() > 0 ==> call_ensures(*exit, (), false),
            decreases slots@.len() - i,
        {
            let slot: u64 = slots[i];
            proof {
                assert(slots@.take(i + 1).drop_last() =~= slots@.take(i as int));
                assert(slots@.take(i + 1).last() == slot);
            }
            if !self.is_root(slot) {
                if exit() {
                    proof {
                        lemma_unrooted_grows(self@.ledger, slots@, i + 1);
                    }
                    return None;
                }
                result.push(slot);
            }
            i += 1;
        }
        assert(slots@.take(slots@.len() as int) =~= slots@);
        Some(result)
    }

    /// Roots the ancestors of the last root that are not rooted and not below the lowest cleanup
    /// slot, in runs of at most 100. `exit` is asked at each slot that is found, and before each
    /// run, and stops the work.
    pub fn scan_and_fix_roots<F: Fn() -> bool>(&mut self, exit: F)
        requires
            parent_of(old(self)@.ledger.meta, old(self)@.last_root) matches Some(parent)
                ==> descends(
                old(self)@.ledger.meta,
                parent,
                old(self)@.lowest_cleanup_slot as int,
            ),
            call_requires(exit, ()),
        ensures
            exists|n: nat|
                {
                    &&& n <= runs_of_100(missing_roots(old(self)@).len() as int)
                    &&& final(self)@ == #[trigger] old(self)@.with_root_runs(
                        missing_roots(old(self)@),
                        n,
                    )
                    &&& n < runs_of_100(missing_roots(old(self)@).len() as int) ==> call_ensures(
                        exit,
                        (),
                        true,
                    )
                    &&& n > 0 ==> call_ensures(exit, (), false)
                },
    {
        let ghost store0 = self@;
        let missing = match self.find_missing_roots(&exit) {
            Some(missing) => missing,
            None => {
                assert(self@ == store0.with_root_runs(missing_roots(store0), 0));
                return;
            },
        };
        let ghost slots = missing@;
        let total: usize = missing.len();
        let mut done: usize = 0;
        let ghost mut n: nat = 0;
        while done < total
            invariant
                total == missing@.len(),
                slots == missing@,
                store0 == old(self)@,
                slots == missing_roots(store0),
                0 <= done <= total,
                done == n * 100 || done == total,
                n <= runs_of_100(total as int),
                done == total ==> n == runs_of_100(total as int),
                done < total ==> done == n * 100,
                call_requires(exit, ()),
                n > 0 ==> call_ensures(exit, (), false),
                self@ == store0.with_root_runs(slots, n),
            decreases total - done,
        {
            if exit() {
                assert(self@ == store0.with_root_runs(slots, n));
                return;
            }
            let end: usize = if total - done > 100 {
                done + 100
            } else {
                total
            };
            let mut run: Vec<Slot> = Vec::new();
            let mut i: usize = done;
            while i < end
                invariant
                    done <= i <= end <= total,
                    total == missing@.len(),
                    slots == missing@,
                    run@ == slots.subrange(done as int, i as int),
                decreases end - i,
            {
                run.push(missing[i]);
                assert(run@ =~= slots.subrange(done as int, i + 1));
                i += 1;
            }
            self.set_roots(&run);
            proof {
                n = n + 1;
                assert(((n - 1) as nat) * 100 == done);
                assert((n - 1) as nat == n - 1);
            }
            done = end;
        }
        assert(self@ == store0.with_root_runs(slots, n));
    }

    /// For each of `slots` that something is known of, the slots that build on it.
    pub fn get_slots_since(&self, slots: &Vec<Slot>) -> (result: Column<u64, Vec<Slot>>)
        ensures
            forall|k: u64| #[trigger]
                result@.contains_key(k) <==> slots@.contains(k) && self@.ledger.meta.contains_key(
                    k,
                ),
            forall|k: u64| #[trigger]
                result@.contains_key(k) ==> result@[k] == self@.ledger.meta[k].next_slots,
    {
        let mut result: Column<u64, Vec<Slot>> = Column::new();
        let mut i: usize = 0;
        while i < slots.len()
            invariant
                0 <= i <= slots@.len(),
                forall|k: u64| #[trigger]
                    result@.contains_key(k) <==> slots@.take(i as int).contains(k)
                        && self@.ledger.meta.contains_key(k),
                forall|k: u64| #[trigger]
                    result@.contains_key(k) ==> result@[k] == self@.ledger.meta[k].next_slots,
            decreases slots@.len() - i,
        {
            let slot: u64 = slots[i];
            let ghost before = result@;
            match self.ledger.meta.get(&slot) {
                Some(meta) => result.put(slot, meta.next_slots.duplicate()),
                None => {},
            }
            proof {
                assert forall|k: u64| #[trigger] result@.contains_key(k) <==> slots@.take(
                    i + 1,
                ).contains(k) && self@.ledger.meta.contains_key(k) by {
                    let a = slots@.take(i as int);
                    let b = slots@.take(i + 1);
                    assert(b =~= a.push(slot));
                    assert(b.contains(k) <==> (a.contains(k) || k == slot)) by {
                        if a.contains(k) {
                            let j = choose|j: int| 0 <= j < a.len() && a[j] == k;
                            assert(b[j] == k);
                        }
                        if b.contains(k) {
                            let j = choose|j: int| 0 <= j < b.len() && b[j] == k;
                            if j < a.len() {
                                assert(a[j] == k);
                            }
                        }
                        assert(b[a.len() as int] == slot);
                    }
                    assert(before.contains_key(k) <==> a.contains(k)
                        && self@.ledger.meta.contains_key(k));
                }
            }
            i += 1;
        }
        assert(slots@.take(slots@.len() as int) =~= slots@);
        result
    }
}

/// The bound that `None` stands for is above every slot.
pub open spec fn lowest_bound(lowest: Option<Slot>) -> int {
    match lowest {
        Some(bound) => bound as int,
        None => u64::MAX + 1,
    }
}

/// Whether two vectors hold the same bytes.
pub fn same_bytes(a: &Vec<u8>, b: &Vec<u8>) -> (result: bool)
    ensures
        result == (a@ == b@),
{
    if a.len() != b.len() {
        return false;
    }
    let mut i: usize = 0;
    while i < a.len()
        invariant
            a.len() == b.len(),
            0 <= i <= a.len(),
            forall|j: int| 0 <= j < i ==> a@[j] == b@[j],
        decreases a.len() - i,
    {
        if a[i] != b[i] {
            return false;
        }
        i += 1;
    }
    assert(a@ =~= b@);
    true
}

} // verus!
