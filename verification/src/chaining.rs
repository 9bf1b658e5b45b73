//! Chaining: linking the slots of a batch to their parents, and passing on to the children
//! that a slot is connected to slot 0.

use vstd::prelude::*;
use crate::column::{ordered_keys, orders, Column, Duplicate};
use crate::ledger::{op_views, Ledger, LedgerView, WriteOp, WriteOpView};
use crate::meta::{SlotMeta, SlotMetaView};
use crate::slot_update::{
    has_updates, is_newly_completed_slot, is_orphan, newly_completed, optional_meta, orphaned,
    slot_has_updates,
};
use crate::types::Slot;

verus! {

/// The metadata of a slot while a batch of shreds is inserted.
pub struct SlotMetaWorkingSetEntry {
    pub new_slot_meta: SlotMeta,
    /// The metadata as it stands in the ledger.
    pub old_slot_meta: Option<SlotMeta>,
    /// Whether a shred of the slot was inserted in this batch.
    pub did_insert_occur: bool,
}

/// The model of a `SlotMetaWorkingSetEntry`.
#[verifier::ext_equal]
pub struct MetaEntryView {
    pub new_slot_meta: SlotMetaView,
    pub old_slot_meta: Option<SlotMetaView>,
    pub did_insert_occur: bool,
}

impl View for SlotMetaWorkingSetEntry {
    type V = MetaEntryView;

    open spec fn view(&self) -> MetaEntryView {
        MetaEntryView {
            new_slot_meta: self.new_slot_meta@,
            old_slot_meta: optional_meta(self.old_slot_meta),
            did_insert_occur: self.did_insert_occur,
        }
    }
}

impl SlotMetaWorkingSetEntry {
    /// An entry for a slot of which no shred was inserted yet.
    pub fn new(new_slot_meta: SlotMeta, old_slot_meta: Option<SlotMeta>) -> (result: Self)
        ensures
            result@ == (MetaEntryView {
                new_slot_meta: new_slot_meta@,
                old_slot_meta: optional_meta(old_slot_meta),
                did_insert_occur: false,
            }),
    {
        SlotMetaWorkingSetEntry { new_slot_meta, old_slot_meta, did_insert_occur: false }
    }
}

/// The metadata at hand while slots are chained: that of the slots of the batch, and that of
/// the other slots that chaining touches.
#[verifier::ext_equal]
pub struct ChainView {
    pub working: Map<u64, MetaEntryView>,
    pub chained: Map<u64, SlotMetaView>,
}

/// The metadata of `slot`: at hand, in the ledger, or that of an orphan.
pub open spec fn effective_meta(ledger: LedgerView, c: ChainView, slot: Slot) -> SlotMetaView {
    if c.working.contains_key(slot) {
        c.working[slot].new_slot_meta
    } else if c.chained.contains_key(slot) {
        c.chained[slot]
    } else if ledger.meta.contains_key(slot) {
        ledger.meta[slot]
    } else {
        SlotMetaView::fresh(slot, None)
    }
}

impl ChainView {
    /// `slot` is at hand.
    pub open spec fn has(self, slot: Slot) -> bool {
        self.working.contains_key(slot) || self.chained.contains_key(slot)
    }

    /// The metadata of a slot that is at hand.
    pub open spec fn at(self, slot: Slot) -> SlotMetaView {
        if self.working.contains_key(slot) {
            self.working[slot].new_slot_meta
        } else {
            self.chained[slot]
        }
    }

    /// `slot` brought to hand, from the ledger or as an orphan.
    pub open spec fn bring(self, ledger: LedgerView, slot: Slot) -> Self {
        if self.has(slot) {
            self
        } else {
            ChainView {
                chained: self.chained.insert(slot, effective_meta(ledger, self, slot)),
                ..self
            }
        }
    }

    /// Other metadata for a slot that is at hand.
    pub open spec fn with(self, slot: Slot, meta: SlotMetaView) -> Self {
        if self.working.contains_key(slot) {
            ChainView {
                working: self.working.insert(
                    slot,
                    MetaEntryView { new_slot_meta: meta, ..self.working[slot] },
                ),
                ..self
            }
        } else {
            ChainView { chained: self.chained.insert(slot, meta), ..self }
        }
    }
}

/// The metadata of a connected slot.
pub open spec fn connected(meta: SlotMetaView) -> SlotMetaView {
    SlotMetaView { is_connected: true, ..meta }
}

/// `to` can be reached from `from` by going from full slots to their children.
pub open spec fn reaches(metas: spec_fn(u64) -> SlotMetaView, from: u64, to: u64) -> bool
    decreases u64::MAX - from,
{
    from == to || (metas(from).is_full() && exists|i: int|
        0 <= i < metas(from).next_slots.len() && from < #[trigger] metas(from).next_slots[i]
            && reaches(metas, metas(from).next_slots[i], to))
}

/// The metadata of each slot, as a function.
pub open spec fn metas_of(ledger: LedgerView, c: ChainView) -> spec_fn(u64) -> SlotMetaView {
    |s: u64| effective_meta(ledger, c, s)
}

/// Every slot that `start` reaches, made connected.
pub open spec fn propagated(ledger: LedgerView, c: ChainView, start: Slot) -> ChainView {
    let metas = metas_of(ledger, c);
    ChainView {
        working: Map::new(
            |k: u64| c.working.contains_key(k),
            |k: u64|
                if reaches(metas, start, k) {
                    MetaEntryView {
                        new_slot_meta: connected(c.working[k].new_slot_meta),
                        ..c.working[k]
                    }
                } else {
                    c.working[k]
                },
        ),
        chained: Map::new(
            |k: u64|
                c.chained.contains_key(k) || (!c.working.contains_key(k) && reaches(
                    metas,
                    start,
                    k,
                )),
            |k: u64|
                if !c.working.contains_key(k) && reaches(metas, start, k) {
                    connected(effective_meta(ledger, c, k))
                } else {
                    c.chained[k]
                },
        ),
    }
}

/// The children of every slot are above it.
pub open spec fn children_above(ledger: LedgerView, c: ChainView) -> bool {
    forall|k: u64, i: int|
        0 <= i < effective_meta(ledger, c, k).next_slots.len() ==> k < #[trigger] effective_meta(
            ledger,
            c,
            k,
        ).next_slots[i]
}

/// The parents of the slots of the batch are below them.
pub open spec fn parents_below(working: Map<u64, MetaEntryView>) -> bool {
    forall|k: u64| #[trigger]
        working.contains_key(k) && k != 0 && working[k].new_slot_meta.parent_slot is Some
            ==> working[k].new_slot_meta.parent_slot->0 < k
}

/// The size of the tree that is walked from `s`.
spec fn weight(metas: spec_fn(u64) -> SlotMetaView, s: u64) -> nat
    decreases u64::MAX - s, metas(s).next_slots.len() + 1,
{
    1 + if metas(s).is_full() {
        weight_of_children(metas, s, metas(s).next_slots.len())
    } else {
        0
    }
}

spec fn weight_of_children(metas: spec_fn(u64) -> SlotMetaView, s: u64, n: nat) -> nat
    decreases u64::MAX - s, n,
{
    if n == 0 || n > metas(s).next_slots.len() || metas(s).next_slots[n - 1] <= s {
        0
    } else {
        weight_of_children(metas, s, (n - 1) as nat) + weight(metas, metas(s).next_slots[n - 1])
    }
}

spec fn weight_of_stack(metas: spec_fn(u64) -> SlotMetaView, stack: Seq<u64>) -> nat
    decreases stack.len(),
{
    if stack.len() == 0 {
        0
    } else {
        weight_of_stack(metas, stack.drop_last()) + weight(metas, stack.last())
    }
}

/// Finds the metadata of a slot that is at hand.
fn find_slot_meta_in_cached_state<'a>(
    working_set: &'a Column<u64, SlotMetaWorkingSetEntry>,
    chained_slots: &'a Column<u64, SlotMeta>,
    slot: Slot,
) -> (result: Option<&'a SlotMeta>)
    ensures
        ({
            let c = ChainView { working: working_set@, chained: chained_slots@ };
            &&& result is Some <==> c.has(slot)
            &&& result is Some ==> result->0@ == c.at(slot)
        }),
{
    match working_set.get(&slot) {
        Some(entry) => Some(&entry.new_slot_meta),
        None => chained_slots.get(&slot),
    }
}

/// Brings the metadata of a slot to hand from the ledger, or, where the ledger has none, as
/// that of an orphan.
fn find_slot_meta_in_db_else_create(
    ledger: &Ledger,
    slot: Slot,
    insert_map: &mut Column<u64, SlotMeta>,
)
    ensures
        final(insert_map)@ == old(insert_map)@.insert(
            slot,
            if ledger@.meta.contains_key(slot) {
                ledger@.meta[slot]
            } else {
                SlotMetaView::fresh(slot, None)
            },
        ),
{
    match ledger.meta.get(&slot) {
        Some(meta) => insert_map.put(slot, meta.duplicate()),
        None => insert_map.put(slot, SlotMeta::new_orphan(slot)),
    }
}

/// Brings the metadata of a slot to hand, unless it is: from the ledger, or as that of an
/// orphan.
pub fn find_slot_meta_else_create(
    ledger: &Ledger,
    working_set: &Column<u64, SlotMetaWorkingSetEntry>,
    chained_slots: &mut Column<u64, SlotMeta>,
    slot_index: u64,
)
    ensures
        (ChainView { working: working_set@, chained: final(chained_slots)@ }) == (ChainView {
            working: working_set@,
            chained: old(chained_slots)@,
        }).bring(ledger@, slot_index),
{
    if find_slot_meta_in_cached_state(working_set, chained_slots, slot_index).is_none() {
        find_slot_meta_in_db_else_create(ledger, slot_index, chained_slots);
    }
}

/// Replaces the metadata of a slot that is at hand.
fn set_slot_meta(
    working_set: &mut Column<u64, SlotMetaWorkingSetEntry>,
    chained_slots: &mut Column<u64, SlotMeta>,
    slot: Slot,
    meta: SlotMeta,
)
    ensures
        (ChainView { working: final(working_set)@, chained: final(chained_slots)@ }) == (
        ChainView { working: old(working_set)@, chained: old(chained_slots)@ }).with(slot, meta@),
{
    match working_set.remove(&slot) {
        Some(entry) => {
            let updated = SlotMetaWorkingSetEntry {
                new_slot_meta: meta,
                old_slot_meta: entry.old_slot_meta,
                did_insert_occur: entry.did_insert_occur,
            };
            working_set.put(slot, updated);
            assert(working_set@ =~= old(working_set)@.insert(slot, updated@));
        },
        None => {
            assert(working_set@ =~= old(working_set)@);
            chained_slots.put(slot, meta);
        },
    }
}

/// What is known midway through the walk that makes slots connected.
spec fn walking(
    ledger: LedgerView,
    before: ChainView,
    now: ChainView,
    visited: Set<u64>,
    stack: Seq<u64>,
) -> bool {
    &&& forall|k: u64| #[trigger] now.working.contains_key(k) <==> before.working.contains_key(k)
    &&& forall|k: u64| #[trigger]
        now.working.contains_key(k) ==> now.working[k] == if visited.contains(k) {
            MetaEntryView {
                new_slot_meta: connected(before.working[k].new_slot_meta),
                ..before.working[k]
            }
        } else {
            before.working[k]
        }
    &&& forall|k: u64| #[trigger]
        now.chained.contains_key(k) <==> before.chained.contains_key(k) || (
        !before.working.contains_key(k) && (visited.contains(k) || stack.contains(k)))
    &&& forall|k: u64| #[trigger]
        now.chained.contains_key(k) ==> now.chained[k] == if before.working.contains_key(k) {
            before.chained[k]
        } else if visited.contains(k) {
            connected(effective_meta(ledger, before, k))
        } else {
            effective_meta(ledger, before, k)
        }
}

/// What `start` reaches has been visited, or is reached from the stack.
spec fn covered(
    metas: spec_fn(u64) -> SlotMetaView,
    start: u64,
    visited: Set<u64>,
    stack: Seq<u64>,
) -> bool {
    forall|k: u64| #[trigger]
        reaches(metas, start, k) <==> visited.contains(k) || exists|j: int|
            0 <= j < stack.len() && reaches(metas, #[trigger] stack[j], k)
}

proof fn lemma_covered_step(
    metas: spec_fn(u64) -> SlotMetaView,
    start: u64,
    visited: Set<u64>,
    stack: Seq<u64>,
    kids: Seq<u64>,
)
    requires
        covered(metas, start, visited, stack),
        stack.len() > 0,
        kids == if metas(stack.last()).is_full() {
            metas(stack.last()).next_slots
        } else {
            Seq::empty()
        },
        forall|i: int|
            0 <= i < metas(stack.last()).next_slots.len() ==> stack.last() < #[trigger] metas(
                stack.last(),
            ).next_slots[i],
    ensures
        covered(metas, start, visited.insert(stack.last()), stack.drop_last() + kids),
{
    let s = stack.last();
    let rest = stack.drop_last();
    let v2 = visited.insert(s);
    let st2 = rest + kids;
    assert forall|k: u64| #[trigger] reaches(metas, start, k) <==> v2.contains(k) || exists|j: int|
        0 <= j < st2.len() && reaches(metas, #[trigger] st2[j], k) by {
        if reaches(metas, start, k) && !v2.contains(k) {
            let j = choose|j: int| 0 <= j < stack.len() && reaches(metas, #[trigger] stack[j], k);
            if j < rest.len() {
                assert(st2[j] == stack[j]);
            } else {
                assert(reaches(metas, s, k));
                let i = choose|i: int|
                    0 <= i < metas(s).next_slots.len() && s < #[trigger] metas(s).next_slots[i]
                        && reaches(metas, metas(s).next_slots[i], k);
                assert(kids[i] == metas(s).next_slots[i]);
                assert(st2[rest.len() + i] == kids[i]);
            }
        }
        if v2.contains(k) && !visited.contains(k) {
            assert(stack[stack.len() - 1] == s);
            assert(reaches(metas, stack[stack.len() - 1], k));
        }
        if exists|j: int| 0 <= j < st2.len() && reaches(metas, #[trigger] st2[j], k) {
            let j = choose|j: int| 0 <= j < st2.len() && reaches(metas, #[trigger] st2[j], k);
            if j < rest.len() {
                assert(stack[j] == st2[j]);
            } else {
                let i = j - rest.len();
                assert(st2[j] == kids[i]);
                assert(s < metas(s).next_slots[i]);
                assert(reaches(metas, s, k));
                assert(stack[stack.len() - 1] == s);
            }
        }
    }
}

proof fn lemma_weight_push(metas: spec_fn(u64) -> SlotMetaView, stack: Seq<u64>, s: u64)
    ensures
        weight_of_stack(metas, stack.push(s)) == weight_of_stack(metas, stack) + weight(metas, s),
{
    assert(stack.push(s).drop_last() =~= stack);
}

/// Makes every slot that `slot` reaches through full slots connected.
fn traverse_children_mut(
    ledger: &Ledger,
    slot: Slot,
    working_set: &mut Column<u64, SlotMetaWorkingSetEntry>,
    new_chained_slots: &mut Column<u64, SlotMeta>,
)
    requires
        (ChainView { working: old(working_set)@, chained: old(new_chained_slots)@ }).has(slot),
        children_above(
            ledger@,
            ChainView { working: old(working_set)@, chained: old(new_chained_slots)@ },
        ),
    ensures
        (ChainView { working: final(working_set)@, chained: final(new_chained_slots)@ })
            == propagated(
            ledger@,
            ChainView { working: old(working_set)@, chained: old(new_chained_slots)@ },
            slot,
        ),
{
    let ghost before = ChainView { working: working_set@, chained: new_chained_slots@ };
    let ghost metas = metas_of(ledger@, before);
    let ghost mut visited: Set<u64> = Set::empty();
    let mut next_slots: Vec<u64> = Vec::new();
    next_slots.push(slot);
    proof {
        assert(next_slots@ =~= seq![slot]);
        assert forall|k: u64| #[trigger] reaches(metas, slot, k) <==> visited.contains(k)
            || exists|j: int|
            0 <= j < next_slots@.len() && reaches(metas, #[trigger] next_slots@[j], k) by {
            if reaches(metas, slot, k) {
                assert(next_slots@[0] == slot);
            }
        }
        assert(walking(ledger@, before, before, visited, next_slots@));
    }
    while next_slots.len() > 0
        invariant
            metas == metas_of(ledger@, before),
            children_above(ledger@, before),
            walking(
                ledger@,
                before,
                ChainView { working: working_set@, chained: new_chained_slots@ },
                visited,
                next_slots@,
            ),
            covered(metas, slot, visited, next_slots@),
        decreases weight_of_stack(metas, next_slots@),
    {
        let ghost stack = next_slots@;
        let ghost c0 = ChainView { working: working_set@, chained: new_chained_slots@ };
        let current: u64 = next_slots.pop().unwrap();
        let ghost rest = next_slots@;
        proof {
            assert(current == stack.last());
            assert(rest =~= stack.drop_last());
            assert(stack.contains(current));
            assert(c0.working.contains_key(current) <==> before.working.contains_key(current));
            assert(before.working.contains_key(current) || c0.chained.contains_key(current));
        }
        let mut meta = match find_slot_meta_in_cached_state(
            working_set,
            new_chained_slots,
            current,
        ) {
            Some(m) => m.duplicate(),
            None => {
                assert(false);
                SlotMeta::new_orphan(current)
            },
        };
        meta.is_connected = true;
        let explore = meta.is_full();
        let children = meta.next_slots.duplicate();
        proof {
            assert(meta@ == connected(metas(current)));
            assert(explore == metas(current).is_full());
            assert(children@ == metas(current).next_slots);
        }
        set_slot_meta(working_set, new_chained_slots, current, meta);
        let ghost visited2 = visited.insert(current);
        let ghost c1 = ChainView { working: working_set@, chained: new_chained_slots@ };
        let ghost kids = if explore {
            children@
        } else {
            Seq::empty()
        };
        proof {
            assert(walking(ledger@, before, c1, visited2, rest)) by {
                assert forall|k: u64| #[trigger] c1.chained.contains_key(k)
                    <==> before.chained.contains_key(k) || (!before.working.contains_key(k) && (
                visited2.contains(k) || rest.contains(k))) by {
                    if stack.contains(k) {
                        let j = choose|j: int| 0 <= j < stack.len() && stack[j] == k;
                        if j < rest.len() {
                            assert(rest[j] == k);
                        }
                    }
                    if rest.contains(k) {
                        let j = choose|j: int| 0 <= j < rest.len() && rest[j] == k;
                        assert(stack[j] == k);
                    }
                }
            }
            lemma_covered_step(metas, slot, visited, stack, kids);
        }
        if explore {
            let mut i: usize = 0;
            proof {
                assert(rest + children@.take(0) =~= rest);
            }
            while i < children.len()
                invariant
                    0 <= i <= children@.len(),
                    explore,
                    metas == metas_of(ledger@, before),
                    children@ == metas(current).next_slots,
                    metas(current).is_full(),
                    children_above(ledger@, before),
                    next_slots@ == rest + children@.take(i as int),
                    walking(
                        ledger@,
                        before,
                        ChainView { working: working_set@, chained: new_chained_slots@ },
                        visited2,
                        next_slots@,
                    ),
                    weight_of_stack(metas, next_slots@) == weight_of_stack(metas, rest)
                        + weight_of_children(metas, current, i as nat),
                decreases children@.len() - i,
            {
                let child: u64 = children[i];
                let ghost c2 = ChainView { working: working_set@, chained: new_chained_slots@ };
                let ghost stack2 = next_slots@;
                find_slot_meta_else_create(ledger, working_set, new_chained_slots, child);
                next_slots.push(child);
                proof {
                    let c3 = ChainView { working: working_set@, chained: new_chained_slots@ };
                    assert(next_slots@ =~= rest + children@.take(i + 1));
                    lemma_weight_push(metas, stack2, child);
                    assert(effective_meta(ledger@, before, current).next_slots[i as int] == child);
                    assert(current < child);
                    assert(walking(ledger@, before, c3, visited2, next_slots@)) by {
                        assert forall|k: u64| stack2.push(child).contains(k) <==> (
                        stack2.contains(k) || k == child) by {
                            if stack2.contains(k) {
                                let j = choose|j: int| 0 <= j < stack2.len() && stack2[j] == k;
                                assert(stack2.push(child)[j] == k);
                            }
                            assert(stack2.push(child)[stack2.len() as int] == child);
                        }
                        assert(c2.working.contains_key(child) <==> before.working.contains_key(
                            child,
                        ));
                    }
                }
                i += 1;
            }
            assert(children@.take(children@.len() as int) =~= children@);
        } else {
            assert(rest + kids =~= rest);
        }
        proof {
            visited = visited2;
            assert(next_slots@ =~= rest + kids);
            assert(weight_of_stack(metas, stack) == weight_of_stack(metas, rest) + weight(
                metas,
                current,
            ));
        }
    }
    proof {
        let now = ChainView { working: working_set@, chained: new_chained_slots@ };
        let goal = propagated(ledger@, before, slot);
        assert forall|k: u64| reaches(metas, slot, k) <==> #[trigger] visited.contains(k) by {
        }
        assert forall|k: u64| #[trigger] now.working.contains_key(k) implies now.working[k]
            == goal.working[k] by {
            assert(reaches(metas, slot, k) <==> visited.contains(k));
        }
        assert(now.working =~= goal.working);
        assert forall|k: u64| #[trigger] now.chained.contains_key(k)
            <==> goal.chained.contains_key(k) by {
            assert(reaches(metas, slot, k) <==> visited.contains(k));
        }
        assert forall|k: u64| #[trigger] now.chained.contains_key(k) implies now.chained[k]
            == goal.chained[k] by {
            assert(reaches(metas, slot, k) <==> visited.contains(k));
        }
        assert(now.chained =~= goal.chained);
    }
}


/// Links `slot` to its parent `prev`: the parent gets it as a child, and it is connected when
/// the parent is connected and full.
pub open spec fn linked(ledger: LedgerView, c: ChainView, slot: Slot, prev: Slot) -> ChainView {
    let c1 = c.bring(ledger, prev);
    let parent = c1.at(prev);
    let c2 = c1.with(
        prev,
        SlotMetaView { next_slots: parent.next_slots.push(slot), ..parent },
    );
    c2.with(
        slot,
        SlotMetaView {
            is_connected: parent.is_connected && parent.is_full(),
            ..c2.at(slot)
        },
    )
}

/// The slot was an orphan when it was read.
pub open spec fn was_orphan(entry: MetaEntryView) -> bool {
    entry.old_slot_meta is Some && orphaned(entry.old_slot_meta->0)
}

/// `slot` is to be linked to a parent that was not known before.
pub open spec fn gets_parent(entry: MetaEntryView, slot: Slot) -> bool {
    slot != 0 && entry.new_slot_meta.parent_slot is Some && (entry.old_slot_meta is None
        || was_orphan(entry))
}

/// The metadata at hand after `slot` of the batch was chained.
pub open spec fn chained_slot(ledger: LedgerView, c: ChainView, slot: Slot) -> ChainView {
    let entry = c.working[slot];
    let c1 = if gets_parent(entry, slot) {
        linked(ledger, c, slot, entry.new_slot_meta.parent_slot->0)
    } else {
        c
    };
    let meta = c1.working[slot].new_slot_meta;
    if newly_completed(meta, entry.old_slot_meta) && meta.is_connected {
        propagated(ledger, c1, slot)
    } else {
        c1
    }
}

/// The writes to the orphans that chaining `slot` makes: a parent that is an orphan becomes
/// one, and a slot that now has a parent no longer is.
pub open spec fn orphan_writes(ledger: LedgerView, c: ChainView, slot: Slot) -> Seq<WriteOpView> {
    let entry = c.working[slot];
    let prev = entry.new_slot_meta.parent_slot->0;
    let first = if gets_parent(entry, slot) && orphaned(effective_meta(ledger, c, prev)) {
        seq![WriteOpView::PutOrphan(prev, true)]
    } else {
        Seq::empty()
    };
    if was_orphan(entry) {
        first.push(WriteOpView::DeleteOrphan(slot))
    } else {
        first
    }
}

/// Appends `current_slot` to the children of its parent, and notes whether it is connected.
fn chain_new_slot_to_prev_slot(
    prev_slot_meta: &mut SlotMeta,
    current_slot: Slot,
    current_slot_meta: &mut SlotMeta,
)
    ensures
        final(prev_slot_meta)@ == (SlotMetaView {
            next_slots: old(prev_slot_meta)@.next_slots.push(current_slot),
            ..old(prev_slot_meta)@
        }),
        final(current_slot_meta)@ == (SlotMetaView {
            is_connected: old(prev_slot_meta)@.is_connected && old(prev_slot_meta)@.is_full(),
            ..old(current_slot_meta)@
        }),
{
    prev_slot_meta.next_slots.push(current_slot);
    current_slot_meta.is_connected = prev_slot_meta.is_connected && prev_slot_meta.is_full();
}

pub proof fn lemma_linked_forward(ledger: LedgerView, c: ChainView, slot: Slot, prev: Slot)
    requires
        children_above(ledger, c),
        c.working.contains_key(slot),
        prev < slot,
    ensures
        children_above(ledger, linked(ledger, c, slot, prev)),
        linked(ledger, c, slot, prev).working.contains_key(slot),
        linked(ledger, c, slot, prev).working[slot].old_slot_meta == c.working[slot].old_slot_meta,
        linked(ledger, c, slot, prev).working.dom() == c.working.dom(),
        same_frames(c.working, linked(ledger, c, slot, prev).working),
{
    let d = linked(ledger, c, slot, prev);
    assert forall|k: u64, i: int|
        0 <= i < effective_meta(ledger, d, k).next_slots.len() implies k < #[trigger] effective_meta(
        ledger,
        d,
        k,
    ).next_slots[i] by {
        let before = effective_meta(ledger, c, k).next_slots;
        if k == prev {
            assert(effective_meta(ledger, d, k).next_slots =~= before.push(slot));
        } else {
            assert(effective_meta(ledger, d, k).next_slots =~= before);
        }
        if i < before.len() {
            assert(effective_meta(ledger, c, k).next_slots[i] == before[i]);
        }
    }
    assert(d.working.dom() =~= c.working.dom());
}

/// Two working sets agree on all that chaining leaves alone: the slots, what is in the ledger,
/// the parents and the shreds.
pub open spec fn same_frames(a: Map<u64, MetaEntryView>, b: Map<u64, MetaEntryView>) -> bool {
    forall|k: u64| #[trigger]
        a.contains_key(k) ==> b.contains_key(k) && b[k].old_slot_meta == a[k].old_slot_meta
            && b[k].did_insert_occur == a[k].did_insert_occur && (SlotMetaView {
            next_slots: Seq::empty(),
            is_connected: true,
            ..b[k].new_slot_meta
        }) == (SlotMetaView {
            next_slots: Seq::empty(),
            is_connected: true,
            ..a[k].new_slot_meta
        })
}

proof fn lemma_propagated_forward(ledger: LedgerView, c: ChainView, slot: Slot)
    requires
        children_above(ledger, c),
    ensures
        children_above(ledger, propagated(ledger, c, slot)),
        propagated(ledger, c, slot).working.dom() == c.working.dom(),
        same_frames(c.working, propagated(ledger, c, slot).working),
{
    let d = propagated(ledger, c, slot);
    assert forall|k: u64, i: int|
        0 <= i < effective_meta(ledger, d, k).next_slots.len() implies k < #[trigger] effective_meta(
        ledger,
        d,
        k,
    ).next_slots[i] by {
        assert(effective_meta(ledger, d, k).next_slots == effective_meta(ledger, c, k).next_slots);
        assert(k < effective_meta(ledger, c, k).next_slots[i]);
    }
    assert(d.working.dom() =~= c.working.dom());
}

/// Chaining a slot keeps children above their parents and leaves the frames alone.
pub proof fn lemma_chained_slot_forward(ledger: LedgerView, c: ChainView, slot: Slot)
    requires
        children_above(ledger, c),
        parents_below(c.working),
        c.working.contains_key(slot),
    ensures
        children_above(ledger, chained_slot(ledger, c, slot)),
        chained_slot(ledger, c, slot).working.dom() == c.working.dom(),
        same_frames(c.working, chained_slot(ledger, c, slot).working),
{
    let entry = c.working[slot];
    let c1 = if gets_parent(entry, slot) {
        linked(ledger, c, slot, entry.new_slot_meta.parent_slot->0)
    } else {
        c
    };
    if gets_parent(entry, slot) {
        lemma_linked_forward(ledger, c, slot, entry.new_slot_meta.parent_slot->0);
    }
    lemma_propagated_forward(ledger, c1, slot);
}

/// Chains one slot of the batch: links it to its parent where that was not known before, and
/// passes on that it is connected where it has become full.
fn handle_chaining_for_slot(
    ledger: &Ledger,
    write_batch: &mut Vec<WriteOp>,
    working_set: &mut Column<u64, SlotMetaWorkingSetEntry>,
    new_chained_slots: &mut Column<u64, SlotMeta>,
    slot: Slot,
)
    requires
        old(working_set)@.contains_key(slot),
        parents_below(old(working_set)@),
        children_above(
            ledger@,
            ChainView { working: old(working_set)@, chained: old(new_chained_slots)@ },
        ),
    ensures
        ({
            let c = ChainView { working: old(working_set)@, chained: old(new_chained_slots)@ };
            &&& (ChainView { working: final(working_set)@, chained: final(new_chained_slots)@ })
                == chained_slot(ledger@, c, slot)
            &&& op_views(final(write_batch)@) == op_views(old(write_batch)@) + orphan_writes(
                ledger@,
                c,
                slot,
            )
        }),
{
    let ghost c = ChainView { working: working_set@, chained: new_chained_slots@ };
    let ghost entry0 = c.working[slot];
    let mut was_orphan_slot = false;
    let mut is_new = true;
    let mut parent: Option<Slot> = None;
    match working_set.get(&slot) {
        Some(entry) => {
            parent = entry.new_slot_meta.parent_slot;
            match &entry.old_slot_meta {
                Some(backup) => {
                    is_new = false;
                    was_orphan_slot = is_orphan(backup);
                },
                None => {},
            }
        },
        None => {
            assert(false);
        },
    }
    let ghost ops0 = op_views(write_batch@);
    let ghost mut first: Seq<WriteOpView> = Seq::empty();
    if slot != 0 && (is_new || was_orphan_slot) {
        if let Some(prev_slot) = parent {
            find_slot_meta_else_create(ledger, working_set, new_chained_slots, prev_slot);
            let mut prev_meta = match find_slot_meta_in_cached_state(
                working_set,
                new_chained_slots,
                prev_slot,
            ) {
                Some(m) => m.duplicate(),
                None => {
                    assert(false);
                    SlotMeta::new_orphan(prev_slot)
                },
            };
            let mut meta = match working_set.get(&slot) {
                Some(entry) => entry.new_slot_meta.duplicate(),
                None => {
                    assert(false);
                    SlotMeta::new_orphan(slot)
                },
            };
            let ghost c1 = ChainView { working: working_set@, chained: new_chained_slots@ };
            chain_new_slot_to_prev_slot(&mut prev_meta, slot, &mut meta);
            let prev_is_orphan = is_orphan(&prev_meta);
            set_slot_meta(working_set, new_chained_slots, prev_slot, prev_meta);
            let ghost c2 = ChainView { working: working_set@, chained: new_chained_slots@ };
            assert(c2.at(slot) == c1.at(slot));
            set_slot_meta(working_set, new_chained_slots, slot, meta);
            if prev_is_orphan {
                write_batch.push(WriteOp::PutOrphan(prev_slot, true));
                proof {
                    first = seq![WriteOpView::PutOrphan(prev_slot, true)];
                    assert(op_views(write_batch@) =~= ops0 + first);
                }
            }
            proof {
                assert(gets_parent(entry0, slot));
                lemma_linked_forward(ledger@, c, slot, prev_slot);
                assert((ChainView { working: working_set@, chained: new_chained_slots@ })
                    =~= linked(ledger@, c, slot, prev_slot));
            }
        }
    }
    assert(op_views(write_batch@) =~= ops0 + first);
    if was_orphan_slot {
        write_batch.push(WriteOp::DeleteOrphan(slot));
        assert(op_views(write_batch@) =~= ops0 + first.push(WriteOpView::DeleteOrphan(slot)));
    }
    let ghost c3 = ChainView { working: working_set@, chained: new_chained_slots@ };
    let should_propagate_is_connected = match working_set.get(&slot) {
        Some(entry) => is_newly_completed_slot(&entry.new_slot_meta, &entry.old_slot_meta)
            && entry.new_slot_meta.is_connected,
        None => false,
    };
    if should_propagate_is_connected {
        traverse_children_mut(ledger, slot, working_set, new_chained_slots);
    }
}

/// The metadata at hand after the slots in `keys` were chained, one after the other.
pub open spec fn chained_slots(ledger: LedgerView, c: ChainView, keys: Seq<u64>) -> ChainView
    decreases keys.len(),
{
    if keys.len() == 0 {
        c
    } else {
        chained_slot(ledger, chained_slots(ledger, c, keys.drop_last()), keys.last())
    }
}

/// The writes to the orphans that chaining the slots in `keys` makes.
pub open spec fn orphan_writes_of(ledger: LedgerView, c: ChainView, keys: Seq<u64>) -> Seq<
    WriteOpView,
>
    decreases keys.len(),
{
    if keys.len() == 0 {
        Seq::empty()
    } else {
        orphan_writes_of(ledger, c, keys.drop_last()) + orphan_writes(
            ledger,
            chained_slots(ledger, c, keys.drop_last()),
            keys.last(),
        )
    }
}

/// A write of the metadata of each slot in `keys`.
pub open spec fn meta_writes(metas: Map<u64, SlotMetaView>, keys: Seq<u64>) -> Seq<WriteOpView> {
    Seq::new(keys.len(), |i: int| WriteOpView::PutMeta(keys[i], metas[keys[i]]))
}

/// The slots into which a shred was inserted.
pub open spec fn inserted_into(working: Map<u64, MetaEntryView>) -> Map<u64, MetaEntryView> {
    Map::new(
        |k: u64| working.contains_key(k) && working[k].did_insert_occur,
        |k: u64| working[k],
    )
}

/// The metadata at hand once every slot of a batch is chained.
pub open spec fn chained_batch(ledger: LedgerView, working: Map<u64, MetaEntryView>) -> ChainView {
    let kept = inserted_into(working);
    chained_slots(
        ledger,
        ChainView { working: kept, chained: Map::empty() },
        ordered_keys(kept),
    )
}

/// The writes that chaining a batch makes.
pub open spec fn chaining_writes(ledger: LedgerView, working: Map<u64, MetaEntryView>) -> Seq<
    WriteOpView,
> {
    let kept = inserted_into(working);
    let c = chained_batch(ledger, working);
    orphan_writes_of(
        ledger,
        ChainView { working: kept, chained: Map::empty() },
        ordered_keys(kept),
    ) + meta_writes(c.chained, ordered_keys(c.chained))
}

/// Chaining slots keeps children above their parents and leaves the frames alone.
pub proof fn lemma_chained_slots_forward(ledger: LedgerView, c: ChainView, keys: Seq<u64>)
    requires
        children_above(ledger, c),
        parents_below(c.working),
        forall|i: int| 0 <= i < keys.len() ==> c.working.contains_key(#[trigger] keys[i]),
    ensures
        children_above(ledger, chained_slots(ledger, c, keys)),
        chained_slots(ledger, c, keys).working.dom() == c.working.dom(),
        same_frames(c.working, chained_slots(ledger, c, keys).working),
        parents_below(chained_slots(ledger, c, keys).working),
    decreases keys.len(),
{
    if keys.len() > 0 {
        let c1 = chained_slots(ledger, c, keys.drop_last());
        lemma_chained_slots_forward(ledger, c, keys.drop_last());
        assert(c.working.dom().contains(keys.last()));
        assert(c1.working.contains_key(keys.last()));
        lemma_chained_slot_forward(ledger, c1, keys.last());
        let c2 = chained_slots(ledger, c, keys);
        assert forall|k: u64| #[trigger] c2.working.contains_key(k) && k != 0
            && c2.working[k].new_slot_meta.parent_slot is Some implies
            c2.working[k].new_slot_meta.parent_slot->0 < k by {
            assert(c1.working.dom().contains(k));
            assert(c1.working.contains_key(k));
        }
    } else {
        assert(c.working.dom() =~= chained_slots(ledger, c, keys).working.dom());
    }
}

/// Drops the slots of the batch into which nothing was inserted.
fn retain_inserted(working_set: &mut Column<u64, SlotMetaWorkingSetEntry>)
    ensures
        final(working_set)@ == inserted_into(old(working_set)@),
{
    let n: usize = working_set.len();
    let ghost before = working_set@;
    let ghost ks = ordered_keys(before);
    let mut keys: Vec<u64> = Vec::new();
    let mut i: usize = 0;
    while i < n
        invariant
            0 <= i <= n,
            n == ks.len(),
            ks == ordered_keys(working_set@),
            keys@ == ks.take(i as int),
        decreases n - i,
    {
        keys.push(working_set.key_at(i));
        assert(keys@ =~= ks.take(i + 1));
        i += 1;
    }
    assert(keys@ =~= ks);
    let mut j: usize = 0;
    while j < keys.len()
        invariant
            0 <= j <= keys@.len(),
            keys@ == ks,
            orders(ks, before),
            forall|k: u64| #[trigger]
                working_set@.contains_key(k) ==> before.contains_key(k) && working_set@[k]
                    == before[k],
            forall|k: u64| #[trigger]
                before.contains_key(k) && before[k].did_insert_occur ==> working_set@.contains_key(k),
            forall|i: int|
                0 <= i < j && working_set@.contains_key(#[trigger] ks[i])
                    ==> before[ks[i]].did_insert_occur,
        decreases keys@.len() - j,
    {
        let k: u64 = keys[j];
        let keep = match working_set.get(&k) {
            Some(entry) => entry.did_insert_occur,
            None => true,
        };
        if !keep {
            let _ = working_set.remove(&k);
        }
        j += 1;
    }
    proof {
        assert forall|k: u64| #[trigger] working_set@.contains_key(k) <==> inserted_into(
            before,
        ).contains_key(k) by {
            if working_set@.contains_key(k) {
                assert(before.contains_key(k));
                assert(ks.contains(k));
                let i = choose|i: int| 0 <= i < ks.len() && ks[i] == k;
                assert(working_set@.contains_key(ks[i]));
            }
        }
        assert(working_set@ =~= inserted_into(before));
    }
}

/// Chains the slots of a batch: drops those into which nothing was inserted, chains the others
/// in the order of their slots, and writes the metadata of the other slots that were touched.
pub fn handle_chaining(
    ledger: &Ledger,
    write_batch: &mut Vec<WriteOp>,
    working_set: &mut Column<u64, SlotMetaWorkingSetEntry>,
)
    requires
        parents_below(old(working_set)@),
        children_above(
            ledger@,
            ChainView { working: inserted_into(old(working_set)@), chained: Map::empty() },
        ),
    ensures
        final(working_set)@ == chained_batch(ledger@, old(working_set)@).working,
        orders(ordered_keys(inserted_into(old(working_set)@)), inserted_into(old(working_set)@)),
        orders(
            ordered_keys(chained_batch(ledger@, old(working_set)@).chained),
            chained_batch(ledger@, old(working_set)@).chained,
        ),
        op_views(final(write_batch)@) == op_views(old(write_batch)@) + chaining_writes(
            ledger@,
            old(working_set)@,
        ),
{
    let ghost working0 = working_set@;
    retain_inserted(working_set);
    let mut new_chained_slots: Column<u64, SlotMeta> = Column::new();
    let n: usize = working_set.len();
    let ghost c0 = ChainView { working: working_set@, chained: new_chained_slots@ };
    let ghost ks = ordered_keys(c0.working);
    let ghost ops0 = op_views(write_batch@);
    let mut keys: Vec<u64> = Vec::new();
    let mut i: usize = 0;
    while i < n
        invariant
            0 <= i <= n,
            n == ks.len(),
            ks == ordered_keys(working_set@),
            keys@ == ks.take(i as int),
        decreases n - i,
    {
        keys.push(working_set.key_at(i));
        assert(keys@ =~= ks.take(i + 1));
        i += 1;
    }
    assert(keys@ =~= ks);
    let mut j: usize = 0;
    proof {
        assert(ks.take(0) =~= Seq::empty());
        assert(ops0 + orphan_writes_of(ledger@, c0, ks.take(0)) =~= ops0);
        assert forall|i: int| 0 <= i < ks.len() implies c0.working.contains_key(
            #[trigger] ks[i],
        ) by {
            assert(ks.contains(ks[i]));
        }
        assert(parents_below(c0.working));
    }
    while j < keys.len()
        invariant
            0 <= j <= keys@.len(),
            keys@ == ks,
            children_above(ledger@, c0),
            parents_below(c0.working),
            forall|i: int| 0 <= i < ks.len() ==> c0.working.contains_key(#[trigger] ks[i]),
            (ChainView { working: working_set@, chained: new_chained_slots@ }) == chained_slots(
                ledger@,
                c0,
                ks.take(j as int),
            ),
            op_views(write_batch@) == ops0 + orphan_writes_of(ledger@, c0, ks.take(j as int)),
        decreases keys@.len() - j,
    {
        let slot: u64 = keys[j];
        proof {
            let done = ks.take(j as int);
            lemma_chained_slots_forward(ledger@, c0, done);
            assert(c0.working.dom().contains(slot));
            assert(working_set@.dom().contains(slot));
            assert(ks.take(j + 1).drop_last() =~= done);
            assert(ks.take(j + 1).last() == slot);
        }
        let ghost c1 = ChainView { working: working_set@, chained: new_chained_slots@ };
        let ghost ops1 = op_views(write_batch@);
        handle_chaining_for_slot(ledger, write_batch, working_set, &mut new_chained_slots, slot);
        proof {
            assert(ops1 + orphan_writes(ledger@, c1, slot) =~= ops0 + orphan_writes_of(
                ledger@,
                c0,
                ks.take(j + 1),
            ));
        }
        j += 1;
    }
    assert(ks.take(ks.len() as int) =~= ks);
    let ghost ops2 = op_views(write_batch@);
    let m: usize = new_chained_slots.len();
    let ghost cks = ordered_keys(new_chained_slots@);
    let mut l: usize = 0;
    proof {
        assert(ops2 + meta_writes(new_chained_slots@, cks).take(0) =~= ops2);
    }
    while l < m
        invariant
            0 <= l <= m,
            m == cks.len(),
            cks == ordered_keys(new_chained_slots@),
            op_views(write_batch@) == ops2 + meta_writes(new_chained_slots@, cks).take(l as int),
        decreases m - l,
    {
        let slot: u64 = new_chained_slots.key_at(l);
        let meta = new_chained_slots.value_at(l).duplicate();
        let ghost ops3 = op_views(write_batch@);
        write_batch.push(WriteOp::PutMeta(slot, meta));
        proof {
            let all = meta_writes(new_chained_slots@, cks);
            assert(op_views(write_batch@) =~= ops3.push(all[l as int]));
            assert(op_views(write_batch@) =~= ops2 + all.take(l + 1));
        }
        l += 1;
    }
    proof {
        let all = meta_writes(new_chained_slots@, cks);
        assert(all.take(m as int) =~= all);
        assert(op_views(write_batch@) =~= ops0 + chaining_writes(ledger@, working0));
    }
}

/// The metadata of the slot is not what it was when it was read.
pub open spec fn meta_changed(entry: MetaEntryView) -> bool {
    entry.old_slot_meta != Some(entry.new_slot_meta)
}

/// The writes of the metadata that changed, of the slots in `keys`.
pub open spec fn changed_writes(working: Map<u64, MetaEntryView>, keys: Seq<u64>) -> Seq<
    WriteOpView,
>
    decreases keys.len(),
{
    if keys.len() == 0 {
        Seq::empty()
    } else {
        let k = keys.last();
        let earlier = changed_writes(working, keys.drop_last());
        if meta_changed(working[k]) {
            earlier.push(WriteOpView::PutMeta(k, working[k].new_slot_meta))
        } else {
            earlier
        }
    }
}

/// The slots in `keys` that have become full.
pub open spec fn completed_slots(working: Map<u64, MetaEntryView>, keys: Seq<u64>) -> Seq<u64>
    decreases keys.len(),
{
    if keys.len() == 0 {
        Seq::empty()
    } else {
        let k = keys.last();
        let earlier = completed_slots(working, keys.drop_last());
        if newly_completed(working[k].new_slot_meta, working[k].old_slot_meta) {
            earlier.push(k)
        } else {
            earlier
        }
    }
}

/// Some changed slot made the chain from slot 0 longer.
pub open spec fn any_updates(working: Map<u64, MetaEntryView>) -> bool {
    exists|k: u64| #[trigger]
        working.contains_key(k) && meta_changed(working[k]) && has_updates(
            working[k].new_slot_meta,
            working[k].old_slot_meta,
        )
}

/// Writes the metadata that changed. Returns whether to signal new shreds, and, where someone
/// waits for them, the slots that have become full.
pub fn commit_slot_meta_working_set(
    slot_meta_working_set: &Column<u64, SlotMetaWorkingSetEntry>,
    has_completed_slots_senders: bool,
    write_batch: &mut Vec<WriteOp>,
) -> (result: (bool, Vec<u64>))
    requires
        forall|k: u64| #[trigger]
            slot_meta_working_set@.contains_key(k) ==> slot_meta_working_set@[k].did_insert_occur,
    ensures
        orders(ordered_keys(slot_meta_working_set@), slot_meta_working_set@),
        result.0 == any_updates(slot_meta_working_set@),
        result.1@ == if has_completed_slots_senders {
            completed_slots(slot_meta_working_set@, ordered_keys(slot_meta_working_set@))
        } else {
            Seq::empty()
        },
        op_views(final(write_batch)@) == op_views(old(write_batch)@) + changed_writes(
            slot_meta_working_set@,
            ordered_keys(slot_meta_working_set@),
        ),
{
    let n: usize = slot_meta_working_set.len();
    let ghost working = slot_meta_working_set@;
    let ghost ks = ordered_keys(working);
    let ghost ops0 = op_views(write_batch@);
    let mut should_signal = false;
    let mut newly_completed_slots: Vec<u64> = Vec::new();
    let mut i: usize = 0;
    proof {
        assert(ks.take(0) =~= Seq::empty());
        assert(ops0 + changed_writes(working, ks.take(0)) =~= ops0);
    }
    while i < n
        invariant
            0 <= i <= n,
            n == ks.len(),
            working == slot_meta_working_set@,
            ks == ordered_keys(working),
            orders(ks, working),
            should_signal == exists|j: int|
                0 <= j < i && meta_changed(working[#[trigger] ks[j]]) && has_updates(
                    working[ks[j]].new_slot_meta,
                    working[ks[j]].old_slot_meta,
                ),
            newly_completed_slots@ == if has_completed_slots_senders {
                completed_slots(working, ks.take(i as int))
            } else {
                Seq::empty()
            },
            op_views(write_batch@) == ops0 + changed_writes(working, ks.take(i as int)),
        decreases n - i,
    {
        let slot: u64 = slot_meta_working_set.key_at(i);
        let entry = slot_meta_working_set.value_at(i);
        proof {
            assert(ks.take(i + 1).drop_last() =~= ks.take(i as int));
            assert(ks.take(i + 1).last() == slot);
            assert(working[ks[i as int]] == entry@);
        }
        if has_completed_slots_senders && is_newly_completed_slot(
            &entry.new_slot_meta,
            &entry.old_slot_meta,
        ) {
            newly_completed_slots.push(slot);
        }
        let changed = match &entry.old_slot_meta {
            Some(backup) => !entry.new_slot_meta.same(backup),
            None => true,
        };
        let ghost ops1 = op_views(write_batch@);
        if changed {
            let updates = slot_has_updates(&entry.new_slot_meta, &entry.old_slot_meta);
            should_signal = should_signal || updates;
            write_batch.push(WriteOp::PutMeta(slot, entry.new_slot_meta.duplicate()));
            assert(op_views(write_batch@) =~= ops1.push(
                WriteOpView::PutMeta(slot, entry.new_slot_meta@),
            ));
        }
        assert(op_views(write_batch@) =~= ops0 + changed_writes(working, ks.take(i + 1)));
        i += 1;
    }
    proof {
        assert(ks.take(n as int) =~= ks);
        if any_updates(working) {
            let k = choose|k: u64| #[trigger]
                working.contains_key(k) && meta_changed(working[k]) && has_updates(
                    working[k].new_slot_meta,
                    working[k].old_slot_meta,
                );
            assert(ks.contains(k));
            let j = choose|j: int| 0 <= j < ks.len() && ks[j] == k;
            assert(meta_changed(working[ks[j]]));
        }
        if should_signal {
            let j = choose|j: int|
                0 <= j < n && meta_changed(working[#[trigger] ks[j]]) && has_updates(
                    working[ks[j]].new_slot_meta,
                    working[ks[j]].old_slot_meta,
                );
            assert(ks.contains(ks[j]));
            assert(working.contains_key(ks[j]));
        }
    }
    (should_signal, newly_completed_slots)
}

} // verus!
