//! The links between slots: insertion keeps parents and children in agreement, and a slot
//! connected exactly when its parent is connected and full.

use vstd::prelude::*;
use crate::batch::{
    batch_step, batch_steps, ledger_sound, lemma_batch_steps_sound, lemma_code_step_sound,
    lemma_data_step_sound, lemma_recovered_steps_sound, lemma_sound_chains, recovered_step,
    recovered_steps, state_sound, step_allowed, steps_allowed, taken_up, Progress,
    RecoveredShredView,
};
use crate::blockstore::{lemma_apply_one, BlockstoreView};
use crate::chaining::{
    chained_batch, chained_slot, chained_slots, children_above, connected, effective_meta,
    gets_parent, inserted_into, lemma_chained_slots_forward, lemma_linked_forward, linked, metas_of,
    orphan_writes, orphan_writes_of, parents_below, propagated, reaches, was_orphan, ChainView,
    MetaEntryView,
};
use crate::column::{ordered_keys, orders, ColumnKey};
use crate::insertion::{
    data_allowed, data_step, index_entry, meta_entry, InsertionView, ShredSource,
};
use crate::integrity::{batch_result, frame, tracks};
use crate::ledger::{lemma_apply_all_concat, LedgerView, WriteOpView};
use crate::meta::SlotMetaView;
use crate::shred::ShredView;
use crate::slot_update::{first_missing, newly_completed, orphaned};
use crate::types::Slot;

verus! {

/// The links of a ledger agree: a slot with a parent is a child of it, a child of a slot has it
/// as its parent, and no slot is a child twice; slot 0 is connected, and any other slot exactly
/// when it has a parent that is connected and full.
pub open spec fn links_agree(ledger: LedgerView) -> bool {
    &&& forall|s: u64| #[trigger]
        ledger.meta.contains_key(s) && s != 0 && ledger.meta[s].parent_slot is Some
            ==> ledger.meta.contains_key(ledger.meta[s].parent_slot->0)
            && ledger.meta[ledger.meta[s].parent_slot->0].next_slots.contains(s)
    &&& forall|s: u64, i: int|
        ledger.meta.contains_key(s) && 0 <= i < ledger.meta[s].next_slots.len() ==> {
            let c = #[trigger] ledger.meta[s].next_slots[i];
            c != 0 && ledger.meta.contains_key(c) && ledger.meta[c].parent_slot == Some(s)
        }
    &&& forall|s: u64| #[trigger]
        ledger.meta.contains_key(s) ==> ledger.meta[s].next_slots.no_duplicates()
    &&& forall|s: u64| #[trigger]
        ledger.meta.contains_key(s) ==> (ledger.meta[s].is_connected <==> s == 0 || (
        ledger.meta[s].parent_slot is Some
            && ledger.meta[ledger.meta[s].parent_slot->0].is_connected
            && ledger.meta[ledger.meta[s].parent_slot->0].is_full()))
}

/// Something is known of `s`.
pub open spec fn known(ledger: LedgerView, c: ChainView, s: u64) -> bool {
    ledger.meta.contains_key(s) || c.has(s)
}

/// The parent that is known of `s`.
pub open spec fn parent(ledger: LedgerView, c: ChainView, s: u64) -> Option<Slot> {
    effective_meta(ledger, c, s).parent_slot
}

/// `s` is connected and full.
pub open spec fn open_to_children(ledger: LedgerView, c: ChainView, s: u64) -> bool {
    effective_meta(ledger, c, s).is_connected && effective_meta(ledger, c, s).is_full()
}

/// The links agree midway through chaining. The slots of `unlinked` are not children of their
/// parents yet; those of `waiting` have not passed on yet that they are connected.
pub open spec fn links_midway(
    ledger: LedgerView,
    c: ChainView,
    waiting: Set<u64>,
    unlinked: Set<u64>,
) -> bool {
    &&& forall|s: u64| #[trigger]
        known(ledger, c, s) && s != 0 && !unlinked.contains(s) && parent(ledger, c, s) is Some
            ==> known(ledger, c, parent(ledger, c, s)->0) && effective_meta(
            ledger,
            c,
            parent(ledger, c, s)->0,
        ).next_slots.contains(s)
    &&& forall|s: u64, i: int|
        known(ledger, c, s) && 0 <= i < effective_meta(ledger, c, s).next_slots.len() ==> {
            let k = #[trigger] effective_meta(ledger, c, s).next_slots[i];
            k != 0 && known(ledger, c, k) && parent(ledger, c, k) == Some(s)
                && !unlinked.contains(k)
        }
    &&& forall|s: u64| #[trigger]
        known(ledger, c, s) ==> effective_meta(ledger, c, s).next_slots.no_duplicates()
    &&& forall|s: u64| #[trigger]
        known(ledger, c, s) && s != 0 && (unlinked.contains(s) || parent(ledger, c, s) is None)
            ==> !effective_meta(ledger, c, s).is_connected
    &&& forall|s: u64| #[trigger]
        known(ledger, c, s) && s != 0 && !unlinked.contains(s) && parent(ledger, c, s) is Some
            && effective_meta(ledger, c, s).is_connected ==> open_to_children(
            ledger,
            c,
            parent(ledger, c, s)->0,
        )
    &&& forall|s: u64| #[trigger]
        known(ledger, c, s) && s != 0 && !unlinked.contains(s) && parent(ledger, c, s) is Some
            && !waiting.contains(parent(ledger, c, s)->0) && open_to_children(
            ledger,
            c,
            parent(ledger, c, s)->0,
        ) ==> effective_meta(ledger, c, s).is_connected
    &&& known(ledger, c, 0) ==> effective_meta(ledger, c, 0).is_connected
}

/// Linking a slot to its parent keeps the links in agreement.
proof fn lemma_linked_agrees(
    ledger: LedgerView,
    c: ChainView,
    slot: Slot,
    prev: Slot,
    waiting: Set<u64>,
    unlinked: Set<u64>,
)
    requires
        links_midway(ledger, c, waiting, unlinked),
        c.working.contains_key(slot),
        unlinked.contains(slot),
        waiting.contains(slot),
        parent(ledger, c, slot) == Some(prev),
        prev < slot,
    ensures
        links_midway(ledger, linked(ledger, c, slot, prev), waiting, unlinked.remove(slot)),
{
    let d = linked(ledger, c, slot, prev);
    let l2 = unlinked.remove(slot);
    let pm = effective_meta(ledger, c, prev);
    assert(effective_meta(ledger, d, prev) == SlotMetaView {
        next_slots: pm.next_slots.push(slot),
        ..pm
    });
    assert(effective_meta(ledger, d, slot) == SlotMetaView {
        is_connected: pm.is_connected && pm.is_full(),
        ..effective_meta(ledger, c, slot)
    });
    assert forall|s: u64| s != prev && s != slot implies effective_meta(ledger, d, s)
        == #[trigger] effective_meta(ledger, c, s) by {
    }
    assert forall|s: u64| #[trigger] known(ledger, d, s) <==> (known(ledger, c, s) || s == prev) by {
    }
    assert(known(ledger, c, slot));
    assert(known(ledger, d, slot));
    assert forall|s: u64| parent(ledger, d, s) == parent(ledger, c, s) by {
    }
    assert(!known(ledger, c, prev) ==> pm == SlotMetaView::fresh(prev, None));
    assert(!pm.next_slots.contains(slot)) by {
        if pm.next_slots.contains(slot) {
            let i = choose|i: int| 0 <= i < pm.next_slots.len() && pm.next_slots[i] == slot;
            assert(known(ledger, c, prev));
            assert(effective_meta(ledger, c, prev).next_slots[i] == slot);
        }
    }
    assert forall|s: u64| #[trigger]
        known(ledger, d, s) && s != 0 && !l2.contains(s) && parent(ledger, d, s) is Some implies known(
        ledger,
        d,
        parent(ledger, d, s)->0,
    ) && effective_meta(ledger, d, parent(ledger, d, s)->0).next_slots.contains(s) by {
        let p = parent(ledger, d, s)->0;
        if s == slot {
            let next = pm.next_slots.push(slot);
            assert(next[pm.next_slots.len() as int] == slot);
        } else {
            assert(known(ledger, c, s));
            let old_next = effective_meta(ledger, c, p).next_slots;
            assert(old_next.contains(s));
            if p == prev {
                let i = choose|i: int| 0 <= i < old_next.len() && old_next[i] == s;
                assert(old_next.push(slot)[i] == s);
            }
        }
    }
    assert forall|s: u64, i: int|
        known(ledger, d, s) && 0 <= i < effective_meta(ledger, d, s).next_slots.len() implies {
        let k = #[trigger] effective_meta(ledger, d, s).next_slots[i];
        k != 0 && known(ledger, d, k) && parent(ledger, d, k) == Some(s) && !l2.contains(k)
    } by {
        if s == prev && i == pm.next_slots.len() {
        } else {
            if s == prev {
                assert(known(ledger, c, prev));
                assert(effective_meta(ledger, c, s).next_slots[i] == effective_meta(
                    ledger,
                    d,
                    s,
                ).next_slots[i]);
            } else {
                assert(known(ledger, c, s));
                assert(effective_meta(ledger, d, s).next_slots == effective_meta(
                    ledger,
                    c,
                    s,
                ).next_slots);
            }
            let k = effective_meta(ledger, c, s).next_slots[i];
            assert(k != 0 && known(ledger, c, k) && parent(ledger, c, k) == Some(s));
        }
    }
    assert forall|s: u64| #[trigger] known(ledger, d, s) implies effective_meta(
        ledger,
        d,
        s,
    ).next_slots.no_duplicates() by {
        if s == prev {
            let next = pm.next_slots;
            assert(next.no_duplicates());
            assert(next.push(slot).no_duplicates()) by {
                let n2 = next.push(slot);
                assert forall|i: int, j: int| 0 <= i < n2.len() && 0 <= j < n2.len() && i
                    != j implies n2[i] != n2[j] by {
                    if i == next.len() {
                        assert(next.contains(next[j]));
                    } else if j == next.len() {
                        assert(next.contains(next[i]));
                    }
                }
            }
        } else {
            assert(known(ledger, c, s));
        }
    }
    assert forall|s: u64| #[trigger]
        known(ledger, d, s) && s != 0 && (l2.contains(s) || parent(ledger, d, s) is None) implies
        !effective_meta(ledger, d, s).is_connected by {
        if known(ledger, c, s) {
            assert(s != slot);
        }
    }
    assert forall|s: u64| #[trigger]
        known(ledger, d, s) && s != 0 && !l2.contains(s) && parent(ledger, d, s) is Some
            && effective_meta(ledger, d, s).is_connected implies open_to_children(
        ledger,
        d,
        parent(ledger, d, s)->0,
    ) by {
        if s != slot {
            assert(known(ledger, c, s));
            let p = parent(ledger, c, s)->0;
            assert(open_to_children(ledger, c, p));
            if p == slot {
                assert(!effective_meta(ledger, c, slot).is_connected);
            }
        }
    }
    assert forall|s: u64| #[trigger]
        known(ledger, d, s) && s != 0 && !l2.contains(s) && parent(ledger, d, s) is Some
            && !waiting.contains(parent(ledger, d, s)->0) && open_to_children(
            ledger,
            d,
            parent(ledger, d, s)->0,
        ) implies effective_meta(ledger, d, s).is_connected by {
        if s != slot {
            assert(known(ledger, c, s));
        }
    }
}

/// What is reached in some steps is reached in one more.
proof fn lemma_reach_step(
    metas: spec_fn(u64) -> SlotMetaView,
    from: u64,
    mid: u64,
    to: u64,
    i: int,
)
    requires
        reaches(metas, from, mid),
        metas(mid).is_full(),
        0 <= i < metas(mid).next_slots.len(),
        metas(mid).next_slots[i] == to,
        mid < to,
    ensures
        reaches(metas, from, to),
    decreases u64::MAX - from,
{
    if from == mid {
        assert(reaches(metas, to, to));
        assert(from < metas(from).next_slots[i]);
    } else {
        let j = choose|j: int|
            0 <= j < metas(from).next_slots.len() && from < #[trigger] metas(from).next_slots[j]
                && reaches(metas, metas(from).next_slots[j], mid);
        let next = metas(from).next_slots[j];
        lemma_reach_step(metas, next, mid, to, i);
        assert(reaches(metas, metas(from).next_slots[j], to));
    }
}

/// What is reached, but is not the start, is a child of a full slot that is reached.
proof fn lemma_reach_last(metas: spec_fn(u64) -> SlotMetaView, from: u64, to: u64) -> (result: (
    u64,
    int,
))
    requires
        reaches(metas, from, to),
        from != to,
    ensures
        reaches(metas, from, result.0),
        metas(result.0).is_full(),
        0 <= result.1 < metas(result.0).next_slots.len(),
        metas(result.0).next_slots[result.1] == to,
        result.0 < to,
    decreases u64::MAX - from,
{
    let j = choose|j: int|
        0 <= j < metas(from).next_slots.len() && from < #[trigger] metas(from).next_slots[j]
            && reaches(metas, metas(from).next_slots[j], to);
    let next = metas(from).next_slots[j];
    if next == to {
        assert(reaches(metas, from, from));
        (from, j)
    } else {
        let (q, i) = lemma_reach_last(metas, next, to);
        assert(reaches(metas, metas(from).next_slots[j], q));
        (q, i)
    }
}

/// Passing on that a slot is connected keeps the links in agreement, and the slot waits no
/// longer.
proof fn lemma_propagated_agrees(
    ledger: LedgerView,
    c: ChainView,
    slot: Slot,
    waiting: Set<u64>,
    unlinked: Set<u64>,
)
    requires
        links_midway(ledger, c, waiting, unlinked),
        children_above(ledger, c),
        known(ledger, c, slot),
        !unlinked.contains(slot),
        slot != 0 ==> parent(ledger, c, slot) is Some,
        open_to_children(ledger, c, slot),
    ensures
        links_midway(ledger, propagated(ledger, c, slot), waiting.remove(slot), unlinked),
{
    let metas = metas_of(ledger, c);
    let d = propagated(ledger, c, slot);
    let w2 = waiting.remove(slot);
    lemma_propagated_facts(ledger, c, slot, waiting, unlinked);
    lemma_propagated_links(ledger, c, d, slot, waiting, unlinked);
}

/// What passing on changes, and what it reaches.
spec fn passed_on(
    ledger: LedgerView,
    c: ChainView,
    d: ChainView,
    slot: Slot,
    unlinked: Set<u64>,
) -> bool {
    let metas = metas_of(ledger, c);
    &&& reaches(metas, slot, slot)
    &&& forall|s: u64|
        #![trigger reaches(metas, slot, s)]
        reaches(metas, slot, s) ==> known(ledger, c, s) && (s != slot ==> parent(
            ledger,
            c,
            s,
        ) is Some && !unlinked.contains(s) && reaches(metas, slot, parent(ledger, c, s)->0)
            && effective_meta(ledger, c, parent(ledger, c, s)->0).is_full())
    &&& forall|s: u64| #[trigger] known(ledger, d, s) <==> known(ledger, c, s)
    &&& forall|s: u64| #[trigger]
        effective_meta(ledger, d, s) == if reaches(metas, slot, s) {
            connected(effective_meta(ledger, c, s))
        } else {
            effective_meta(ledger, c, s)
        }
}

proof fn lemma_propagated_facts(
    ledger: LedgerView,
    c: ChainView,
    slot: Slot,
    waiting: Set<u64>,
    unlinked: Set<u64>,
)
    requires
        links_midway(ledger, c, waiting, unlinked),
        known(ledger, c, slot),
    ensures
        passed_on(ledger, c, propagated(ledger, c, slot), slot, unlinked),
{
    let metas = metas_of(ledger, c);
    let d = propagated(ledger, c, slot);
    assert(reaches(metas, slot, slot));
    assert forall|s: u64| reaches(metas, slot, s) implies #[trigger] known(ledger, c, s) && (s
        != slot ==> parent(ledger, c, s) is Some && !unlinked.contains(s) && reaches(
        metas,
        slot,
        parent(ledger, c, s)->0,
    ) && effective_meta(ledger, c, parent(ledger, c, s)->0).is_full()) by {
        if s != slot {
            let (q, i) = lemma_reach_last(metas, slot, s);
            lemma_reach_known(ledger, c, slot, q, waiting, unlinked);
            assert(known(ledger, c, q));
            assert(effective_meta(ledger, c, q).next_slots[i] == s);
        }
    }
    assert forall|s: u64| #[trigger] known(ledger, d, s) <==> known(ledger, c, s) by {
        if reaches(metas, slot, s) {
            assert(known(ledger, c, s));
        }
    }
}

proof fn lemma_propagated_links(
    ledger: LedgerView,
    c: ChainView,
    d: ChainView,
    slot: Slot,
    waiting: Set<u64>,
    unlinked: Set<u64>,
)
    requires
        links_midway(ledger, c, waiting, unlinked),
        children_above(ledger, c),
        known(ledger, c, slot),
        !unlinked.contains(slot),
        slot != 0 ==> parent(ledger, c, slot) is Some,
        open_to_children(ledger, c, slot),
        passed_on(ledger, c, d, slot, unlinked),
    ensures
        links_midway(ledger, d, waiting.remove(slot), unlinked),
{
    let metas = metas_of(ledger, c);
    let w2 = waiting.remove(slot);
    assert forall|s: u64| parent(ledger, d, s) == parent(ledger, c, s) by {
    }
    assert forall|s: u64, i: int|
        known(ledger, d, s) && 0 <= i < effective_meta(ledger, d, s).next_slots.len() implies {
        let k = #[trigger] effective_meta(ledger, d, s).next_slots[i];
        k != 0 && known(ledger, d, k) && parent(ledger, d, k) == Some(s) && !unlinked.contains(k)
    } by {
        assert(known(ledger, c, s));
        assert(effective_meta(ledger, d, s).next_slots == effective_meta(ledger, c, s).next_slots);
        let k = effective_meta(ledger, c, s).next_slots[i];
        assert(known(ledger, c, k));
    }
    assert forall|s: u64| #[trigger]
        known(ledger, d, s) && s != 0 && !unlinked.contains(s) && parent(ledger, d, s) is Some implies known(
        ledger,
        d,
        parent(ledger, d, s)->0,
    ) && effective_meta(ledger, d, parent(ledger, d, s)->0).next_slots.contains(s) by {
        assert(known(ledger, c, s));
        let p = parent(ledger, c, s)->0;
        assert(known(ledger, c, p));
    }
    assert forall|s: u64| #[trigger] known(ledger, d, s) implies effective_meta(
        ledger,
        d,
        s,
    ).next_slots.no_duplicates() by {
        assert(known(ledger, c, s));
    }
    assert forall|s: u64| #[trigger]
        known(ledger, d, s) && s != 0 && (unlinked.contains(s) || parent(ledger, d, s) is None) implies
        !effective_meta(ledger, d, s).is_connected by {
        assert(known(ledger, c, s));
    }
    assert forall|s: u64| #[trigger]
        known(ledger, d, s) && s != 0 && !unlinked.contains(s) && parent(ledger, d, s) is Some
            && effective_meta(ledger, d, s).is_connected implies open_to_children(
        ledger,
        d,
        parent(ledger, d, s)->0,
    ) by {
        assert(known(ledger, c, s));
        let p = parent(ledger, c, s)->0;
        assert(known(ledger, c, p));
        if effective_meta(ledger, c, s).is_connected {
            assert(open_to_children(ledger, c, p));
        } else {
            assert(s != slot);
        }
    }
    assert forall|s: u64| #[trigger]
        known(ledger, d, s) && s != 0 && !unlinked.contains(s) && parent(ledger, d, s) is Some
            && !w2.contains(parent(ledger, d, s)->0) && open_to_children(
            ledger,
            d,
            parent(ledger, d, s)->0,
        ) implies effective_meta(ledger, d, s).is_connected by {
        assert(known(ledger, c, s));
        let p = parent(ledger, c, s)->0;
        assert(known(ledger, c, p));
        if reaches(metas, slot, p) {
            let next = effective_meta(ledger, c, p).next_slots;
            let i = choose|i: int| 0 <= i < next.len() && next[i] == s;
            assert(p < effective_meta(ledger, c, p).next_slots[i]);
            lemma_reach_step(metas, slot, p, s, i);
        } else {
            assert(p != slot);
        }
    }
}

/// What a known slot reaches is known.
proof fn lemma_reach_known(
    ledger: LedgerView,
    c: ChainView,
    from: u64,
    to: u64,
    waiting: Set<u64>,
    unlinked: Set<u64>,
)
    requires
        links_midway(ledger, c, waiting, unlinked),
        known(ledger, c, from),
        reaches(metas_of(ledger, c), from, to),
    ensures
        known(ledger, c, to),
    decreases u64::MAX - from,
{
    let metas = metas_of(ledger, c);
    if from != to {
        let j = choose|j: int|
            0 <= j < metas(from).next_slots.len() && from < #[trigger] metas(from).next_slots[j]
                && reaches(metas, metas(from).next_slots[j], to);
        let next = metas(from).next_slots[j];
        assert(effective_meta(ledger, c, from).next_slots[j] == next);
        lemma_reach_known(ledger, c, next, to, waiting, unlinked);
    }
}

/// The entries of a batch fit the ledger: what the shreds of the batch do not decide is as in
/// the ledger, every slot has a parent, and a slot that is full has become so in this batch.
pub open spec fn entries_fit(ledger: LedgerView, working: Map<u64, MetaEntryView>) -> bool {
    forall|k: u64| #[trigger]
        working.contains_key(k) ==> {
            let e = working[k];
            let m = e.new_slot_meta;
            &&& e.old_slot_meta == if ledger.meta.contains_key(k) {
                Some(ledger.meta[k])
            } else {
                None
            }
            &&& m.parent_slot is Some
            &&& ledger.meta.contains_key(k) ==> m.next_slots == ledger.meta[k].next_slots
                && m.is_connected == ledger.meta[k].is_connected && (
            ledger.meta[k].parent_slot is Some ==> m.parent_slot == ledger.meta[k].parent_slot)
            &&& !ledger.meta.contains_key(k) ==> m.next_slots == Seq::<Slot>::empty()
                && m.is_connected == (k == 0)
            &&& ledger.meta.contains_key(k) ==> !ledger.meta[k].is_full() && (m.is_full()
                ==> m.consumed != ledger.meta[k].consumed)
        }
}

/// The slots of a batch that are not children of their parents yet.
pub open spec fn unlinked_slots(working: Map<u64, MetaEntryView>) -> Set<u64> {
    working.dom().filter(|k: u64| gets_parent(working[k], k))
}

/// The links agree at the start of chaining.
proof fn lemma_start_agrees(ledger: LedgerView, working: Map<u64, MetaEntryView>)
    requires
        links_agree(ledger),
        entries_fit(ledger, working),
    ensures
        links_midway(
            ledger,
            ChainView { working, chained: Map::empty() },
            working.dom(),
            unlinked_slots(working),
        ),
{
    let c = ChainView { working, chained: Map::<u64, SlotMetaView>::empty() };
    let unlinked = unlinked_slots(working);
    assert forall|s: u64| #[trigger] known(ledger, c, s) implies {
        let m = effective_meta(ledger, c, s);
        &&& ledger.meta.contains_key(s) ==> m.next_slots == ledger.meta[s].next_slots
            && m.is_connected == ledger.meta[s].is_connected
        &&& !ledger.meta.contains_key(s) ==> working.contains_key(s)
        &&& unlinked.contains(s) <==> s != 0 && working.contains_key(s) && (
        !ledger.meta.contains_key(s) || ledger.meta[s].parent_slot is None)
        &&& !unlinked.contains(s) && s != 0 ==> ledger.meta.contains_key(s) && m.parent_slot
            == ledger.meta[s].parent_slot
    } by {
        if working.contains_key(s) {
            assert(working[s].new_slot_meta.parent_slot is Some);
        }
    }
    assert forall|s: u64, i: int|
        known(ledger, c, s) && 0 <= i < effective_meta(ledger, c, s).next_slots.len() implies {
        let k = #[trigger] effective_meta(ledger, c, s).next_slots[i];
        k != 0 && known(ledger, c, k) && parent(ledger, c, k) == Some(s) && !unlinked.contains(k)
    } by {
        if !ledger.meta.contains_key(s) {
            assert(working.contains_key(s));
        }
        let k = ledger.meta[s].next_slots[i];
        assert(known(ledger, c, k));
    }
    assert forall|s: u64| #[trigger]
        known(ledger, c, s) && s != 0 && !unlinked.contains(s) && parent(ledger, c, s) is Some implies known(
        ledger,
        c,
        parent(ledger, c, s)->0,
    ) && effective_meta(ledger, c, parent(ledger, c, s)->0).next_slots.contains(s) by {
        let p = parent(ledger, c, s)->0;
        assert(ledger.meta.contains_key(s));
        assert(ledger.meta.contains_key(p));
        assert(known(ledger, c, p));
    }
    assert forall|s: u64| #[trigger] known(ledger, c, s) implies effective_meta(
        ledger,
        c,
        s,
    ).next_slots.no_duplicates() by {
        if ledger.meta.contains_key(s) {
        }
    }
    assert forall|s: u64| #[trigger]
        known(ledger, c, s) && s != 0 && (unlinked.contains(s) || parent(ledger, c, s) is None) implies
        !effective_meta(ledger, c, s).is_connected by {
        if ledger.meta.contains_key(s) {
            assert(ledger.meta[s].parent_slot is None);
        } else {
            assert(working.contains_key(s));
        }
    }
    assert forall|s: u64| #[trigger]
        known(ledger, c, s) && s != 0 && !unlinked.contains(s) && parent(ledger, c, s) is Some
            && effective_meta(ledger, c, s).is_connected implies open_to_children(
        ledger,
        c,
        parent(ledger, c, s)->0,
    ) by {
        let p = parent(ledger, c, s)->0;
        assert(ledger.meta.contains_key(s));
        assert(ledger.meta.contains_key(p));
        assert(known(ledger, c, p));
        if working.contains_key(p) {
            assert(!ledger.meta[p].is_full());
        }
    }
    assert forall|s: u64| #[trigger]
        known(ledger, c, s) && s != 0 && !unlinked.contains(s) && parent(ledger, c, s) is Some
            && !working.dom().contains(parent(ledger, c, s)->0) && open_to_children(
            ledger,
            c,
            parent(ledger, c, s)->0,
        ) implies effective_meta(ledger, c, s).is_connected by {
        let p = parent(ledger, c, s)->0;
        assert(ledger.meta.contains_key(s));
        assert(ledger.meta.contains_key(p));
    }
    if known(ledger, c, 0) {
        if ledger.meta.contains_key(0) {
        } else {
            assert(working.contains_key(0));
        }
    }
}

/// Chaining one slot keeps the links in agreement; the slot is then linked and waits no longer.
proof fn lemma_chained_slot_agrees(
    ledger: LedgerView,
    c: ChainView,
    slot: Slot,
    waiting: Set<u64>,
    unlinked: Set<u64>,
)
    requires
        links_midway(ledger, c, waiting, unlinked),
        children_above(ledger, c),
        parents_below(c.working),
        c.working.contains_key(slot),
        waiting.contains(slot),
        unlinked.contains(slot) <==> gets_parent(c.working[slot], slot),
        c.working[slot].new_slot_meta.parent_slot is Some,
        c.working[slot].new_slot_meta.is_full() ==> newly_completed(
            c.working[slot].new_slot_meta,
            c.working[slot].old_slot_meta,
        ),
    ensures
        links_midway(
            ledger,
            chained_slot(ledger, c, slot),
            waiting.remove(slot),
            unlinked.remove(slot),
        ),
{
    let entry = c.working[slot];
    let l2 = unlinked.remove(slot);
    let p = entry.new_slot_meta.parent_slot->0;
    let c1 = if gets_parent(entry, slot) {
        linked(ledger, c, slot, p)
    } else {
        c
    };
    if gets_parent(entry, slot) {
        lemma_linked_agrees(ledger, c, slot, p, waiting, unlinked);
        lemma_linked_forward(ledger, c, slot, p);
    } else {
        assert(l2 =~= unlinked);
    }
    assert(links_midway(ledger, c1, waiting, l2));
    assert(c1.working.contains_key(slot));
    assert(known(ledger, c1, slot));
    let m = c1.working[slot].new_slot_meta;
    assert(frame(m) =~= frame(entry.new_slot_meta));
    assert(m.is_full() == frame(m).is_full());
    assert(entry.new_slot_meta.is_full() == frame(entry.new_slot_meta).is_full());
    assert(m.consumed == frame(m).consumed);
    assert(entry.new_slot_meta.consumed == frame(entry.new_slot_meta).consumed);
    assert(m.parent_slot == frame(m).parent_slot);
    assert(entry.new_slot_meta.parent_slot == frame(entry.new_slot_meta).parent_slot);
    if newly_completed(m, entry.old_slot_meta) && m.is_connected {
        lemma_propagated_agrees(ledger, c1, slot, waiting, l2);
    } else {
        assert(!open_to_children(ledger, c1, slot));
        lemma_waits_no_longer(ledger, c1, slot, waiting, l2);
    }
}

proof fn lemma_waits_no_longer(
    ledger: LedgerView,
    c: ChainView,
    slot: Slot,
    waiting: Set<u64>,
    unlinked: Set<u64>,
)
    requires
        links_midway(ledger, c, waiting, unlinked),
        !open_to_children(ledger, c, slot),
    ensures
        links_midway(ledger, c, waiting.remove(slot), unlinked),
{
}

/// The members of `keys` from position `n` on.
pub open spec fn keys_left(keys: Seq<u64>, n: int) -> Set<u64> {
    Set::new(|k: u64| exists|i: int| n <= i < keys.len() && keys[i] == k)
}

proof fn lemma_chained_slots_agree(
    ledger: LedgerView,
    working: Map<u64, MetaEntryView>,
    keys: Seq<u64>,
    n: int,
)
    requires
        links_agree(ledger),
        entries_fit(ledger, working),
        children_above(ledger, ChainView { working, chained: Map::empty() }),
        parents_below(working),
        orders(keys, working),
        0 <= n <= keys.len(),
    ensures
        links_midway(
            ledger,
            chained_slots(ledger, ChainView { working, chained: Map::empty() }, keys.take(n)),
            keys_left(keys, n),
            unlinked_slots(working).intersect(keys_left(keys, n)),
        ),
    decreases n,
{
    let c0 = ChainView { working, chained: Map::<u64, SlotMetaView>::empty() };
    let unlinked = unlinked_slots(working);
    if n == 0 {
        lemma_start_agrees(ledger, working);
        assert(keys.take(0) =~= Seq::empty());
        let left = keys_left(keys, 0);
        assert forall|k: u64| left.contains(k) <==> working.dom().contains(k) by {
            assert(working.contains_key(k) <==> keys.contains(k));
        }
        assert(left =~= working.dom());
        assert(unlinked.intersect(left) =~= unlinked);
    } else {
        let before = keys.take(n - 1);
        let slot = keys[n - 1];
        let c = chained_slots(ledger, c0, before);
        lemma_chained_slots_agree(ledger, working, keys, n - 1);
        assert forall|i: int| 0 <= i < before.len() implies c0.working.contains_key(
            #[trigger] before[i],
        ) by {
            assert(keys.contains(keys[i]));
        }
        lemma_chained_slots_forward(ledger, c0, before);
        assert(keys.contains(slot));
        assert(c0.working.dom().contains(slot));
        assert(c.working.contains_key(slot));
        assert(keys.take(n).drop_last() =~= before);
        assert(keys.take(n).last() == slot);
        let left = keys_left(keys, n - 1);
        let left2 = keys_left(keys, n);
        assert(left.contains(slot)) by {
            assert(keys[n - 1] == slot);
        }
        assert(left.remove(slot) =~= left2) by {
            assert forall|k: u64| left.remove(slot).contains(k) <==> left2.contains(k) by {
                if left2.contains(k) {
                    let i = choose|i: int| n <= i < keys.len() && keys[i] == k;
                    assert(keys[n - 1].before(keys[i]));
                    assert(n - 1 <= i < keys.len() && keys[i] == k);
                }
                if left.contains(k) && k != slot {
                    let i = choose|i: int| n - 1 <= i < keys.len() && keys[i] == k;
                    assert(i != n - 1);
                }
            }
        }
        let u = unlinked.intersect(left);
        assert(u.remove(slot) =~= unlinked.intersect(left2));
        assert(working.contains_key(slot));
        let e0 = working[slot];
        let e = c.working[slot];
        let m0 = e0.new_slot_meta;
        let m = e.new_slot_meta;
        assert(e.old_slot_meta == e0.old_slot_meta);
        let f0 = SlotMetaView { next_slots: Seq::empty(), is_connected: true, ..m0 };
        let f = SlotMetaView { next_slots: Seq::empty(), is_connected: true, ..m };
        assert(f == f0);
        assert(m.parent_slot == f.parent_slot && m0.parent_slot == f0.parent_slot);
        assert(m.consumed == f.consumed && m0.consumed == f0.consumed);
        assert(m.last_index == f.last_index && m0.last_index == f0.last_index);
        assert(gets_parent(e, slot) == gets_parent(e0, slot));
        assert(unlinked.contains(slot) <==> gets_parent(e0, slot));
        assert(m.is_full() == m0.is_full());
        lemma_chained_slot_agrees(ledger, c, slot, left, u);
    }
}

/// What chaining a batch leaves in the ledger has its links in agreement.
pub proof fn lemma_result_links(before: LedgerView, state: InsertionView, after: LedgerView)
    requires
        links_agree(before),
        ledger_sound(before),
        state_sound(before, state),
        entries_fit(before, inserted_into(state.slot_metas)),
        batch_result(before, state, after),
        orders(ordered_keys(inserted_into(state.slot_metas)), inserted_into(state.slot_metas)),
    ensures
        links_agree(after),
{
    let working = inserted_into(state.slot_metas);
    let keys = ordered_keys(working);
    let c0 = ChainView { working, chained: Map::<u64, SlotMetaView>::empty() };
    let c = chained_batch(before, state.slot_metas);
    lemma_sound_chains(before, state);
    lemma_chained_slots_agree(before, working, keys, keys.len() as int);
    assert(keys.take(keys.len() as int) =~= keys);
    let left = keys_left(keys, keys.len() as int);
    assert(left =~= Set::<u64>::empty());
    let none = unlinked_slots(working).intersect(left);
    assert(none =~= Set::<u64>::empty());
    assert(links_midway(before, c, Set::empty(), Set::empty()));
    assert forall|s: u64| #[trigger] after.meta.contains_key(s) <==> known(before, c, s) by {
    }
    assert forall|s: u64| #[trigger] after.meta.contains_key(s) implies after.meta[s]
        == effective_meta(before, c, s) by {
        assert(known(before, c, s));
    }
    assert forall|s: u64| #[trigger]
        after.meta.contains_key(s) && s != 0 && after.meta[s].parent_slot is Some implies
        after.meta.contains_key(after.meta[s].parent_slot->0)
        && after.meta[after.meta[s].parent_slot->0].next_slots.contains(s) by {
        assert(known(before, c, s));
        let p = after.meta[s].parent_slot->0;
        assert(known(before, c, p));
        assert(after.meta.contains_key(p));
    }
    assert forall|s: u64, i: int|
        after.meta.contains_key(s) && 0 <= i < after.meta[s].next_slots.len() implies {
        let k = #[trigger] after.meta[s].next_slots[i];
        k != 0 && after.meta.contains_key(k) && after.meta[k].parent_slot == Some(s)
    } by {
        assert(known(before, c, s));
        let k = effective_meta(before, c, s).next_slots[i];
        assert(known(before, c, k));
        assert(after.meta.contains_key(k));
    }
    assert forall|s: u64| #[trigger] after.meta.contains_key(s) implies
        after.meta[s].next_slots.no_duplicates() by {
        assert(known(before, c, s));
    }
    assert forall|s: u64| #[trigger] after.meta.contains_key(s) implies (
    after.meta[s].is_connected <==> s == 0 || (after.meta[s].parent_slot is Some
        && after.meta[after.meta[s].parent_slot->0].is_connected
        && after.meta[after.meta[s].parent_slot->0].is_full())) by {
        assert(known(before, c, s));
        if s != 0 && after.meta[s].parent_slot is Some {
            let p = after.meta[s].parent_slot->0;
            assert(known(before, c, p));
            assert(after.meta.contains_key(p));
        }
    }
}


/// The entries of an insertion of checked shreds fit the ledger: what the shreds do not decide
/// is as in the ledger, the consecutive shreds do not become fewer, the last index stays once
/// it is known and comes to lie above the consecutive shreds, and full slots stay as they are.
pub open spec fn state_fits(ledger: LedgerView, state: InsertionView) -> bool {
    forall|k: u64| #[trigger]
        state.slot_metas.contains_key(k) ==> entry_fits(ledger, k, state.slot_metas[k])
}

/// One entry of an insertion fits the ledger.
pub open spec fn entry_fits(ledger: LedgerView, k: u64, e: MetaEntryView) -> bool {
    let m = e.new_slot_meta;
    let o = ledger.meta[k];
    if ledger.meta.contains_key(k) {
        &&& m.next_slots == o.next_slots
        &&& m.is_connected == o.is_connected
        &&& o.parent_slot is Some ==> m.parent_slot == o.parent_slot
        &&& m.consumed >= o.consumed
        &&& o.last_index is Some ==> m.last_index == o.last_index
        &&& o.last_index is None && m.last_index is Some ==> m.last_index->0 >= o.consumed
        &&& o.is_full() ==> !e.did_insert_occur && m.consumed == o.consumed
    } else {
        m.next_slots == Seq::<Slot>::empty() && m.is_connected == (k == 0)
    }
}

proof fn lemma_first_missing_above(set: Set<u64>, from: u64)
    ensures
        from <= first_missing(set, from),
    decreases u64::MAX - from,
{
    if set.contains(from) && from < u64::MAX {
        lemma_first_missing_above(set, (from + 1) as u64);
    }
}

/// The entries of slots with a shred fit in the sense that chaining needs.
proof fn lemma_fits_chaining(ledger: LedgerView, state: InsertionView)
    requires
        state_fits(ledger, state),
        state_sound(ledger, state),
        tracks(ledger, state),
    ensures
        entries_fit(ledger, inserted_into(state.slot_metas)),
{
    let working = inserted_into(state.slot_metas);
    assert forall|k: u64| #[trigger] working.contains_key(k) implies {
        let e = working[k];
        let m = e.new_slot_meta;
        &&& e.old_slot_meta == if ledger.meta.contains_key(k) {
            Some(ledger.meta[k])
        } else {
            None
        }
        &&& m.parent_slot is Some
        &&& ledger.meta.contains_key(k) ==> m.next_slots == ledger.meta[k].next_slots
            && m.is_connected == ledger.meta[k].is_connected && (ledger.meta[k].parent_slot is Some
            ==> m.parent_slot == ledger.meta[k].parent_slot)
        &&& !ledger.meta.contains_key(k) ==> m.next_slots == Seq::<Slot>::empty()
            && m.is_connected == (k == 0)
        &&& ledger.meta.contains_key(k) ==> !ledger.meta[k].is_full() && (m.is_full()
            ==> m.consumed != ledger.meta[k].consumed)
    } by {
        assert(state.slot_metas.contains_key(k));
        assert(entry_fits(ledger, k, state.slot_metas[k]));
    }
}

/// A checked data shred keeps the entries fitting.
proof fn lemma_data_step_fits(
    store: BlockstoreView,
    state: InsertionView,
    shred: ShredView,
    source: ShredSource,
    now: u64,
)
    requires
        data_allowed(store, state, shred, false, source, now),
        ledger_sound(store.ledger),
        state_sound(store.ledger, state),
        state_fits(store.ledger, state),
    ensures
        ({
            let step = data_step(store, state, shred, false, source, now);
            state_fits(step.store.ledger, step.state)
        }),
{
    let step = data_step(store, state, shred, false, source, now);
    lemma_data_step_sound(store, state, shred, false, source, now);
    let l = step.store.ledger;
    let st = step.state;
    let slot = shred.slot();
    assert(l.meta == store.ledger.meta);
    assert forall|k: u64| #[trigger] st.slot_metas.contains_key(k) implies entry_fits(
        l,
        k,
        st.slot_metas[k],
    ) by {
        if k == slot && shred.parent() is Some {
            let me = meta_entry(store.ledger, state.slot_metas, slot, shred.parent()->0);
            assert(entry_fits(store.ledger, slot, me)) by {
                if state.slot_metas.contains_key(slot) {
                    assert(entry_fits(store.ledger, slot, state.slot_metas[slot]));
                }
            }
            let ie = index_entry(store.ledger, state.indexes, slot);
            lemma_first_missing_above(ie.index.data, (shred.index() + 1) as u64);
        } else {
            assert(state.slot_metas.contains_key(k));
            assert(entry_fits(store.ledger, k, state.slot_metas[k]));
        }
    }
}

/// One checked shred of a batch keeps the entries fitting.
proof fn lemma_batch_step_fits(
    p: Progress,
    shred: ShredView,
    is_repaired: bool,
    now: u64,
    i: usize,
)
    requires
        step_allowed(p, shred, is_repaired, false, now),
        ledger_sound(p.store.ledger),
        state_sound(p.store.ledger, p.state),
        state_fits(p.store.ledger, p.state),
    ensures
        ({
            let q = batch_step(p, shred, is_repaired, false, now, i);
            state_fits(q.store.ledger, q.state)
        }),
{
    let q = batch_step(p, shred, is_repaired, false, now, i);
    if shred.is_data() {
        let source = if is_repaired {
            ShredSource::Repaired
        } else {
            ShredSource::Turbine
        };
        lemma_data_step_fits(p.store, p.state, shred, source, now);
        let step = data_step(p.store, p.state, shred, false, source, now);
        assert(q.state.slot_metas == step.state.slot_metas);
    } else {
        lemma_code_step_sound(p.store, p.state, shred, false, is_repaired);
        assert(q.store.ledger.meta == p.store.ledger.meta);
        assert(q.state.slot_metas == p.state.slot_metas);
    }
    assert forall|k: u64| #[trigger] q.state.slot_metas.contains_key(k) implies entry_fits(
        q.store.ledger,
        k,
        q.state.slot_metas[k],
    ) by {
        if !shred.is_data() {
            assert(entry_fits(p.store.ledger, k, p.state.slot_metas[k]));
        }
    }
}

/// A batch of checked shreds keeps the entries fitting.
pub proof fn lemma_batch_steps_fit(
    p: Progress,
    shreds: Seq<ShredView>,
    is_repaired: Seq<bool>,
    now: u64,
)
    requires
        steps_allowed(p, shreds, is_repaired, false, now),
        ledger_sound(p.store.ledger),
        state_sound(p.store.ledger, p.state),
        state_fits(p.store.ledger, p.state),
    ensures
        ({
            let q = batch_steps(p, shreds, is_repaired, false, now);
            state_fits(q.store.ledger, q.state)
        }),
    decreases shreds.len(),
{
    if shreds.len() > 0 {
        let before = shreds.drop_last();
        let n = shreds.len() - 1;
        lemma_batch_steps_fit(p, before, is_repaired, now);
        lemma_batch_steps_sound(p, before, is_repaired, false, now);
        lemma_batch_step_fits(
            batch_steps(p, before, is_repaired, false, now),
            shreds.last(),
            is_repaired[n],
            now,
            n as usize,
        );
    }
}

/// Checked recovered shreds keep the entries fitting.
pub proof fn lemma_recovered_steps_fit(p: Progress, recovered: Seq<RecoveredShredView>, now: u64)
    requires
        ledger_sound(p.store.ledger),
        state_sound(p.store.ledger, p.state),
        state_fits(p.store.ledger, p.state),
    ensures
        ({
            let q = recovered_steps(p, recovered, false, now);
            state_fits(q.store.ledger, q.state)
        }),
    decreases recovered.len(),
{
    if recovered.len() > 0 {
        let before = recovered.drop_last();
        let n = recovered.len() - 1;
        lemma_recovered_steps_fit(p, before, now);
        lemma_recovered_steps_sound(p, before, false, now);
        let q = recovered_steps(p, before, false, now);
        let r = recovered[n];
        let next = recovered_step(q, r, false, now);
        if r.verified == Some(true) && taken_up(q, r.shred, false, now) {
            lemma_data_step_fits(q.store, q.state, r.shred, ShredSource::Recovered, now);
            let step = data_step(
                q.store,
                q.state,
                r.shred,
                false,
                ShredSource::Recovered,
                now,
            );
            assert(next.state.slot_metas == step.state.slot_metas);
            assert(next.store.ledger == step.store.ledger);
        } else {
            assert(next.state.slot_metas == q.state.slot_metas);
            assert(next.store.ledger == q.store.ledger);
        }
    }
}

/// What a batch of checked shreds leaves in the ledger has its links in agreement.
pub proof fn lemma_checked_result_links(before: LedgerView, state: InsertionView, after: LedgerView)
    requires
        links_agree(before),
        ledger_sound(before),
        state_sound(before, state),
        state_fits(before, state),
        tracks(before, state),
        batch_result(before, state, after),
        orders(ordered_keys(inserted_into(state.slot_metas)), inserted_into(state.slot_metas)),
    ensures
        links_agree(after),
{
    lemma_fits_chaining(before, state);
    lemma_result_links(before, state, after);
}

/// The links of a ledger depend on its slots alone.
pub proof fn lemma_links_same_meta(a: LedgerView, b: LedgerView)
    requires
        a.meta == b.meta,
        links_agree(a),
    ensures
        links_agree(b),
{
}


/// The orphans of a ledger are exactly its slots without a parent.
pub open spec fn orphans_agree(ledger: LedgerView) -> bool {
    forall|s: u64| #[trigger]
        ledger.orphans.contains_key(s) <==> ledger.meta.contains_key(s) && orphaned(
            ledger.meta[s],
        )
}

proof fn lemma_orphans_midway(
    ledger: LedgerView,
    working: Map<u64, MetaEntryView>,
    keys: Seq<u64>,
    n: int,
)
    requires
        links_agree(ledger),
        orphans_agree(ledger),
        entries_fit(ledger, working),
        children_above(ledger, ChainView { working, chained: Map::empty() }),
        parents_below(working),
        orders(keys, working),
        0 <= n <= keys.len(),
    ensures
        ({
            let c0 = ChainView { working, chained: Map::<u64, SlotMetaView>::empty() };
            let c = chained_slots(ledger, c0, keys.take(n));
            let orphans = ledger.apply_all(orphan_writes_of(ledger, c0, keys.take(n))).orphans;
            forall|s: u64| #[trigger]
                orphans.contains_key(s) <==> (keys_left(keys, n).contains(s) && was_orphan(
                    working[s],
                )) || (known(ledger, c, s) && orphaned(effective_meta(ledger, c, s)))
        }),
    decreases n,
{
    let c0 = ChainView { working, chained: Map::<u64, SlotMetaView>::empty() };
    let left = keys_left(keys, n);
    if n == 0 {
        assert(keys.take(0) =~= Seq::empty());
        let orphans = ledger.apply_all(orphan_writes_of(ledger, c0, keys.take(0))).orphans;
        assert forall|s: u64| #[trigger] orphans.contains_key(s) <==> (left.contains(s)
            && was_orphan(working[s])) || (known(ledger, c0, s) && orphaned(
            effective_meta(ledger, c0, s),
        )) by {
            assert(ledger.orphans.contains_key(s) <==> ledger.meta.contains_key(s) && orphaned(
                ledger.meta[s],
            ));
            assert(working.contains_key(s) <==> keys.contains(s));
            assert(left.contains(s) <==> keys.contains(s));
            if working.contains_key(s) {
                assert(working[s].new_slot_meta.parent_slot is Some);
            }
        }
    } else {
        let before = keys.take(n - 1);
        let slot = keys[n - 1];
        let c = chained_slots(ledger, c0, before);
        let d = chained_slots(ledger, c0, keys.take(n));
        let left1 = keys_left(keys, n - 1);
        lemma_orphans_midway(ledger, working, keys, n - 1);
        lemma_chained_slots_agree(ledger, working, keys, n - 1);
        assert forall|i: int| 0 <= i < before.len() implies c0.working.contains_key(
            #[trigger] before[i],
        ) by {
            assert(keys.contains(keys[i]));
        }
        lemma_chained_slots_forward(ledger, c0, before);
        assert(keys.contains(slot));
        assert(c0.working.dom().contains(slot));
        assert(c.working.contains_key(slot));
        assert(keys.take(n).drop_last() =~= before);
        assert(keys.take(n).last() == slot);
        assert(d == chained_slot(ledger, c, slot));
        let w1 = orphan_writes_of(ledger, c0, before);
        let own = orphan_writes(ledger, c, slot);
        let e0 = working[slot];
        let e = c.working[slot];
        let m0 = e0.new_slot_meta;
        let m = e.new_slot_meta;
        let f0 = SlotMetaView { next_slots: Seq::empty(), is_connected: true, ..m0 };
        let f = SlotMetaView { next_slots: Seq::empty(), is_connected: true, ..m };
        assert(working.contains_key(slot));
        assert(f == f0);
        assert(m.parent_slot == f.parent_slot && m0.parent_slot == f0.parent_slot);
        assert(m.consumed == f.consumed && m0.consumed == f0.consumed);
        assert(m.last_index == f.last_index && m0.last_index == f0.last_index);
        let prev = m.parent_slot->0;
        let orphans1 = ledger.apply_all(w1).orphans;
        let orphans2 = ledger.apply_all(orphan_writes_of(ledger, c0, keys.take(n))).orphans;
        lemma_own_orphan_writes(ledger, c, slot, w1);
        assert(orphan_writes_of(ledger, c0, keys.take(n)) == w1 + own);
        let unlinked = unlinked_slots(working).intersect(left1);
        assert(left1.contains(slot)) by {
            assert(keys[n - 1] == slot);
        }
        assert(unlinked.contains(slot) <==> gets_parent(e, slot));
        lemma_chained_slot_known(ledger, c, slot, left1, unlinked);
        assert forall|k: u64| left.contains(k) <==> left1.contains(k) && k != slot by {
            if left.contains(k) {
                let i = choose|i: int| n <= i < keys.len() && keys[i] == k;
                assert(keys[n - 1].before(keys[i]));
                assert(n - 1 <= i < keys.len() && keys[i] == k);
            }
            if left1.contains(k) && k != slot {
                let i = choose|i: int| n - 1 <= i < keys.len() && keys[i] == k;
                assert(i != n - 1);
            }
        }
        assert(gets_parent(e, slot) ==> !left1.contains(prev)) by {
            if gets_parent(e, slot) && left1.contains(prev) {
                let i = choose|i: int| n - 1 <= i < keys.len() && keys[i] == prev;
                assert(prev < slot);
                if i > n - 1 {
                    assert(keys[n - 1].before(keys[i]));
                }
            }
        }
        assert forall|s: u64| #[trigger] orphans2.contains_key(s) <==> (left.contains(s)
            && was_orphan(working[s])) || (known(ledger, d, s) && orphaned(
            effective_meta(ledger, d, s),
        )) by {
            assert(orphans1.contains_key(s) <==> (left1.contains(s) && was_orphan(working[s])) || (
            known(ledger, c, s) && orphaned(effective_meta(ledger, c, s))));
            assert(known(ledger, d, s) <==> known(ledger, c, s) || (gets_parent(e, slot) && s
                == prev));
            assert(parent(ledger, d, s) == parent(ledger, c, s));
            assert(effective_meta(ledger, c, slot).parent_slot is Some);
        }
    }
}

/// What the writes to the orphans of one slot do.
proof fn lemma_own_orphan_writes(
    ledger: LedgerView,
    c: ChainView,
    slot: Slot,
    earlier: Seq<WriteOpView>,
)
    requires
        c.working.contains_key(slot),
        gets_parent(c.working[slot], slot) ==> c.working[slot].new_slot_meta.parent_slot->0 < slot,
    ensures
        ({
            let e = c.working[slot];
            let prev = e.new_slot_meta.parent_slot->0;
            let before = ledger.apply_all(earlier).orphans;
            let after = ledger.apply_all(
                earlier + orphan_writes(ledger, c, slot),
            ).orphans;
            forall|s: u64| #[trigger]
                after.contains_key(s) <==> if s == slot && was_orphan(e) {
                    false
                } else if gets_parent(e, slot) && s == prev && orphaned(
                    effective_meta(ledger, c, prev),
                ) {
                    true
                } else {
                    before.contains_key(s)
                }
        }),
{
    let own = orphan_writes(ledger, c, slot);
    lemma_apply_all_concat(ledger, earlier, own);
    let mid = ledger.apply_all(earlier);
    if own.len() == 0 {
        assert(mid.apply_all(own) == mid);
    } else if own.len() == 1 {
        assert(own =~= seq![own[0]]);
        lemma_apply_one(mid, own[0]);
    } else {
        assert(own.len() == 2);
        assert(own.drop_last() =~= seq![own[0]]);
        lemma_apply_one(mid, own[0]);
        assert(mid.apply_all(own) == mid.apply(own[0]).apply(own[1]));
    }
}

/// Chaining one slot makes nothing known but its parent, and changes no parents.
proof fn lemma_chained_slot_known(
    ledger: LedgerView,
    c: ChainView,
    slot: Slot,
    waiting: Set<u64>,
    unlinked: Set<u64>,
)
    requires
        links_midway(ledger, c, waiting, unlinked),
        children_above(ledger, c),
        parents_below(c.working),
        c.working.contains_key(slot),
        waiting.contains(slot),
        unlinked.contains(slot) <==> gets_parent(c.working[slot], slot),
    ensures
        ({
            let e = c.working[slot];
            let d = chained_slot(ledger, c, slot);
            &&& forall|s: u64| #[trigger]
                known(ledger, d, s) <==> known(ledger, c, s) || (gets_parent(e, slot) && s
                    == e.new_slot_meta.parent_slot->0)
            &&& forall|s: u64| #[trigger] parent(ledger, d, s) == parent(ledger, c, s)
        }),
{
    let e = c.working[slot];
    let p = e.new_slot_meta.parent_slot->0;
    let c1 = if gets_parent(e, slot) {
        linked(ledger, c, slot, p)
    } else {
        c
    };
    let l2 = unlinked.remove(slot);
    if gets_parent(e, slot) {
        lemma_linked_agrees(ledger, c, slot, p, waiting, unlinked);
        lemma_linked_forward(ledger, c, slot, p);
    } else {
        assert(l2 =~= unlinked);
    }
    assert forall|s: u64| #[trigger] known(ledger, c1, s) <==> known(ledger, c, s) || (gets_parent(
        e,
        slot,
    ) && s == p) by {
    }
    assert forall|s: u64| #[trigger] parent(ledger, c1, s) == parent(ledger, c, s) by {
    }
    assert(known(ledger, c1, slot));
    lemma_propagated_facts(ledger, c1, slot, waiting, l2);
    let d1 = propagated(ledger, c1, slot);
    assert forall|s: u64| #[trigger] parent(ledger, d1, s) == parent(ledger, c1, s) by {
        assert(effective_meta(ledger, d1, s).parent_slot == effective_meta(
            ledger,
            c1,
            s,
        ).parent_slot);
    }
}

/// What a batch of checked shreds leaves in the ledger has exactly its slots without a parent
/// as orphans.
pub proof fn lemma_checked_result_orphans(
    before: LedgerView,
    state: InsertionView,
    after: LedgerView,
)
    requires
        links_agree(before),
        orphans_agree(before),
        ledger_sound(before),
        state_sound(before, state),
        state_fits(before, state),
        tracks(before, state),
        batch_result(before, state, after),
        orders(ordered_keys(inserted_into(state.slot_metas)), inserted_into(state.slot_metas)),
    ensures
        orphans_agree(after),
{
    let working = inserted_into(state.slot_metas);
    let keys = ordered_keys(working);
    lemma_fits_chaining(before, state);
    lemma_sound_chains(before, state);
    lemma_orphans_midway(before, working, keys, keys.len() as int);
    assert(keys.take(keys.len() as int) =~= keys);
    let c = chained_batch(before, state.slot_metas);
    assert forall|s: u64| #[trigger] after.orphans.contains_key(s) <==> after.meta.contains_key(s)
        && orphaned(after.meta[s]) by {
        assert(!keys_left(keys, keys.len() as int).contains(s));
        assert(after.meta.contains_key(s) <==> known(before, c, s));
        if known(before, c, s) {
            assert(after.meta[s] == effective_meta(before, c, s));
        }
    }
}

} // verus!
