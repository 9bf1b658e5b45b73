//! The slots that a slot builds on, and the roots among them.

use vstd::prelude::*;
use crate::blockstore::BlockstoreView;
use crate::column::{
    is_greatest, is_least, keys_at_or_above, least, lemma_greatest, lemma_least_member,
};
use crate::laws::law_set_roots;
use crate::ledger::LedgerView;
use crate::meta::SlotMetaView;
use crate::roots::{
    ancestry, confirmed_unrooted, descends, first_available_block, highest_of, lowest_slot,
    missing_roots, parent_of, root_ancestors, rooted, runs_of_100, skipped, slots_with_data,
    unrooted,
};
use crate::types::Slot;

verus! {

/// A slot is reached from another in `n` steps, each from a slot to its parent, and none of them
/// is below `lowest`. Slot 0 has no parent.
pub open spec fn builds_on(
    metas: Map<u64, SlotMetaView>,
    lowest: int,
    child: Slot,
    slot: Slot,
    n: nat,
) -> bool
    decreases n,
{
    child >= lowest && if n == 0 {
        child == slot
    } else {
        child != 0 && metas.contains_key(child) && metas[child].parent_slot is Some && builds_on(
            metas,
            lowest,
            metas[child].parent_slot->0,
            slot,
            (n - 1) as nat,
        )
    }
}

/// A slot is another one, or is reached from it from parent to parent, with none below `lowest`.
pub open spec fn is_ancestor(
    metas: Map<u64, SlotMetaView>,
    lowest: int,
    child: Slot,
    slot: Slot,
) -> bool {
    exists|n: nat| #[trigger] builds_on(metas, lowest, child, slot, n)
}

proof fn lemma_parent_first(metas: Map<u64, SlotMetaView>, lowest: int, child: Slot, slot: Slot)
    ensures
        is_ancestor(metas, lowest, child, slot) <==> child >= lowest && (child == slot || (child
            != 0 && metas.contains_key(child) && metas[child].parent_slot is Some && is_ancestor(
            metas,
            lowest,
            metas[child].parent_slot->0,
            slot,
        ))),
{
    if is_ancestor(metas, lowest, child, slot) {
        let n = choose|n: nat| #[trigger] builds_on(metas, lowest, child, slot, n);
        if n > 0 {
            assert(builds_on(metas, lowest, metas[child].parent_slot->0, slot, (n - 1) as nat));
        }
    }
    if child >= lowest && child == slot {
        assert(builds_on(metas, lowest, child, slot, 0));
    }
    if child >= lowest && child != 0 && metas.contains_key(child) && metas[child].parent_slot is Some
        && is_ancestor(metas, lowest, metas[child].parent_slot->0, slot) {
        let n = choose|n: nat| #[trigger]
            builds_on(metas, lowest, metas[child].parent_slot->0, slot, n);
        assert(builds_on(metas, lowest, child, slot, n + 1));
    }
}

proof fn lemma_not_above(metas: Map<u64, SlotMetaView>, lowest: int, child: Slot, slot: Slot)
    requires
        descends(metas, child, lowest),
        is_ancestor(metas, lowest, child, slot),
    ensures
        lowest <= slot <= child,
    decreases child,
{
    lemma_parent_first(metas, lowest, child, slot);
    if child != slot {
        lemma_not_above(metas, lowest, metas[child].parent_slot->0, slot);
    }
}

/// The slots that are told are a slot and its ancestors that are not below `lowest`.
proof fn lemma_ancestry(metas: Map<u64, SlotMetaView>, lowest: int, child: Slot)
    requires
        descends(metas, child, lowest),
    ensures
        forall|s: Slot| #[trigger]
            ancestry(metas, child, lowest).contains(s) <==> is_ancestor(metas, lowest, child, s),
        forall|i: int, j: int|
            0 <= i < j < ancestry(metas, child, lowest).len() ==> (#[trigger] ancestry(
                metas,
                child,
                lowest,
            )[i]) > (#[trigger] ancestry(metas, child, lowest)[j]),
        ancestry(metas, child, lowest).len() > 0 ==> ancestry(metas, child, lowest)[0] == child,
    decreases child,
{
    let all = ancestry(metas, child, lowest);
    let parent = parent_of(metas, child);
    if child >= lowest && parent is Some {
        lemma_ancestry(metas, lowest, parent->0);
        let rest = ancestry(metas, parent->0, lowest);
        assert(all == seq![child] + rest);
        assert forall|i: int, j: int| 0 <= i < j < all.len() implies #[trigger] all[i]
            > #[trigger] all[j] by {
            assert(all[j] == rest[j - 1]);
            if i == 0 {
                assert(rest.contains(rest[j - 1]));
                lemma_not_above(metas, lowest, parent->0, rest[j - 1]);
            } else {
                assert(all[i] == rest[i - 1]);
            }
        }
        assert forall|s: Slot| #[trigger] all.contains(s) <==> is_ancestor(
            metas,
            lowest,
            child,
            s,
        ) by {
            lemma_parent_first(metas, lowest, child, s);
            assert(all[0] == child);
            if rest.contains(s) {
                let x = choose|x: int| 0 <= x < rest.len() && rest[x] == s;
                assert(all[x + 1] == s);
            }
            if all.contains(s) {
                let x = choose|x: int| 0 <= x < all.len() && all[x] == s;
                if x > 0 {
                    assert(rest[x - 1] == s);
                }
            }
        }
    } else {
        assert forall|s: Slot| #[trigger] all.contains(s) <==> is_ancestor(
            metas,
            lowest,
            child,
            s,
        ) by {
            lemma_parent_first(metas, lowest, child, s);
            if child >= lowest {
                assert(all[0] == child);
            }
        }
    }
}

/// The confirmed slots that are not rooted are exactly the slot that is given, where something is
/// known of it, and its ancestors, as far as they are above the last root. They come from the
/// highest down, and the first is the slot itself.
pub proof fn law_confirmed_slots_are_ancestors(store: BlockstoreView, highest: Slot)
    requires
        store.ledger.meta.contains_key(highest) ==> descends(
            store.ledger.meta,
            highest,
            store.last_root + 1,
        ),
    ensures
        ({
            let slots = confirmed_unrooted(store, highest);
            &&& forall|s: Slot| #[trigger]
                slots.contains(s) <==> store.ledger.meta.contains_key(highest) && is_ancestor(
                    store.ledger.meta,
                    store.last_root + 1,
                    highest,
                    s,
                )
            &&& forall|s: Slot| #[trigger] slots.contains(s) ==> store.last_root < s <= highest
            &&& forall|i: int, j: int|
                0 <= i < j < slots.len() ==> #[trigger] slots[i] > #[trigger] slots[j]
            &&& slots.len() > 0 ==> slots[0] == highest
        }),
{
    if store.ledger.meta.contains_key(highest) {
        lemma_ancestry(store.ledger.meta, store.last_root + 1, highest);
        let slots = confirmed_unrooted(store, highest);
        assert forall|s: Slot| #[trigger] slots.contains(s) implies store.last_root < s
            <= highest by {
            lemma_not_above(store.ledger.meta, store.last_root + 1, highest, s);
        }
    }
}

proof fn lemma_unrooted(ledger: LedgerView, slots: Seq<Slot>)
    ensures
        forall|s: Slot| #[trigger]
            unrooted(ledger, slots).contains(s) <==> slots.contains(s) && !(
            ledger.roots.contains_key(s) && ledger.roots[s]),
    decreases slots.len(),
{
    if slots.len() > 0 {
        let before = slots.drop_last();
        lemma_unrooted(ledger, before);
        let earlier = unrooted(ledger, before);
        let all = unrooted(ledger, slots);
        assert forall|s: Slot| #[trigger] all.contains(s) <==> slots.contains(s) && !(
        ledger.roots.contains_key(s) && ledger.roots[s]) by {
            assert(slots.contains(s) <==> before.contains(s) || s == slots.last()) by {
                if slots.contains(s) {
                    let x = choose|x: int| 0 <= x < slots.len() && slots[x] == s;
                    if x < before.len() {
                        assert(before[x] == s);
                    }
                }
                if before.contains(s) {
                    let x = choose|x: int| 0 <= x < before.len() && before[x] == s;
                    assert(slots[x] == s);
                }
                assert(slots[slots.len() - 1] == slots.last());
            }
            if all.len() > earlier.len() {
                assert(all[earlier.len() as int] == slots.last());
            }
            if earlier.contains(s) {
                let x = choose|x: int| 0 <= x < earlier.len() && earlier[x] == s;
                assert(all[x] == s);
            }
            if all.contains(s) {
                let x = choose|x: int| 0 <= x < all.len() && all[x] == s;
                if x < earlier.len() {
                    assert(earlier[x] == s);
                }
            }
        }
    }
}

/// A slot is the parent of the last root, or reached from it from parent to parent, with none
/// below the lowest cleanup slot.
pub open spec fn below_last_root(store: BlockstoreView, slot: Slot) -> bool {
    let metas = store.ledger.meta;
    let last = store.last_root;
    last != 0 && metas.contains_key(last) && metas[last].parent_slot is Some && is_ancestor(
        metas,
        store.lowest_cleanup_slot as int,
        metas[last].parent_slot->0,
        slot,
    )
}

/// Above the lowest cleanup slot the ancestors of the last root are below their children.
pub open spec fn root_descends(store: BlockstoreView) -> bool {
    parent_of(store.ledger.meta, store.last_root) matches Some(parent) ==> descends(
        store.ledger.meta,
        parent,
        store.lowest_cleanup_slot as int,
    )
}

/// The missing roots are exactly the ancestors of the last root, down to the lowest cleanup slot,
/// that are not marked as roots.
pub proof fn law_missing_roots_are_unrooted_ancestors(store: BlockstoreView, slot: Slot)
    requires
        root_descends(store),
    ensures
        missing_roots(store).contains(slot) <==> below_last_root(store, slot) && !(
        store.ledger.roots.contains_key(slot) && store.ledger.roots[slot]),
{
    let metas = store.ledger.meta;
    let parent = parent_of(metas, store.last_root);
    lemma_unrooted(store.ledger, root_ancestors(store));
    if parent is Some {
        lemma_ancestry(metas, store.lowest_cleanup_slot as int, parent->0);
        assert(root_ancestors(store).contains(slot) <==> below_last_root(store, slot));
    } else {
        assert(!root_ancestors(store).contains(slot));
    }
}

/// After some runs of 100 slots were rooted, exactly the slots of these runs are roots beside the
/// earlier ones, and no other column was touched.
proof fn lemma_root_runs(store: BlockstoreView, slots: Seq<Slot>, n: nat)
    requires
        n <= runs_of_100(slots.len() as int),
    ensures
        ({
            let after = store.with_root_runs(slots, n);
            let done = if n * 100 < slots.len() {
                (n * 100) as int
            } else {
                slots.len() as int
            };
            &&& forall|k: u64| #[trigger]
                rooted(after.ledger, k) <==> rooted(store.ledger, k) || slots.take(done).contains(k)
            &&& after.ledger == (LedgerView { roots: after.ledger.roots, ..store.ledger })
        }),
    decreases n,
{
    if n == 0 {
        assert(slots.take(0) =~= Seq::empty());
    } else {
        let before = (n - 1) as nat;
        lemma_root_runs(store, slots, before);
        let from = (before * 100) as int;
        let to = if n * 100 < slots.len() {
            (n * 100) as int
        } else {
            slots.len() as int
        };
        let run = slots.subrange(from, to);
        let mid = store.with_root_runs(slots, before);
        law_set_roots(mid, run);
        let after = store.with_root_runs(slots, n);
        assert(after == mid.with_roots(run));
        assert(slots.take(to) =~= slots.take(from) + run);
        assert forall|k: u64| #[trigger] rooted(after.ledger, k) <==> rooted(store.ledger, k)
            || slots.take(to).contains(k) by {
            assert(rooted(mid.ledger, k) <==> rooted(store.ledger, k) || slots.take(
                from,
            ).contains(k));
            if slots.take(from).contains(k) {
                let x = choose|x: int| 0 <= x < from && slots.take(from)[x] == k;
                assert(slots.take(to)[x] == k);
            }
            if run.contains(k) {
                let x = choose|x: int| 0 <= x < run.len() && run[x] == k;
                assert(slots.take(to)[from + x] == k);
            }
            if slots.take(to).contains(k) {
                let x = choose|x: int| 0 <= x < to && slots.take(to)[x] == k;
                if x < from {
                    assert(slots.take(from)[x] == k);
                } else {
                    assert(run[x - from] == k);
                }
            }
        }
    }
}

/// Once the missing roots have all been fixed, the last root's ancestors, down to the lowest
/// cleanup slot, are all marked as roots; no other slot was marked or unmarked, and no other
/// column was touched.
pub proof fn law_fixed_roots_leave_no_gap(store: BlockstoreView, slot: Slot)
    requires
        root_descends(store),
    ensures
        ({
            let missing = missing_roots(store);
            let after = store.with_root_runs(
                missing,
                runs_of_100(missing.len() as int) as nat,
            ).ledger;
            let was_root = store.ledger.roots.contains_key(slot) && store.ledger.roots[slot];
            let is_root = after.roots.contains_key(slot) && after.roots[slot];
            &&& is_root <==> was_root || below_last_root(store, slot)
            &&& after == (LedgerView { roots: after.roots, ..store.ledger })
        }),
{
    let missing = missing_roots(store);
    let n = runs_of_100(missing.len() as int) as nat;
    lemma_root_runs(store, missing, n);
    law_missing_roots_are_unrooted_ancestors(store, slot);
    assert(missing.take(missing.len() as int) =~= missing);
    assert(rooted(store.with_root_runs(missing, n).ledger, slot) <==> rooted(store.ledger, slot)
        || missing.contains(slot));
}

/// Rooting slots marks exactly these beside the earlier ones. The last root never goes back, is
/// not below any of them, and is one of them or what it was before.
pub proof fn law_roots_are_marked(store: BlockstoreView, slots: Seq<Slot>, slot: Slot)
    ensures
        ({
            let after = store.with_roots(slots);
            let was_root = store.ledger.roots.contains_key(slot) && store.ledger.roots[slot];
            let is_root = after.ledger.roots.contains_key(slot) && after.ledger.roots[slot];
            &&& is_root <==> was_root || slots.contains(slot)
            &&& store.last_root != u64::MAX ==> after.last_root >= store.last_root
            &&& slots.contains(slot) ==> after.last_root >= slot
            &&& slots.contains(after.last_root) || after.last_root == if store.last_root == u64::MAX {
                0
            } else {
                store.last_root
            }
        }),
{
    law_set_roots(store, slots);
    assert(rooted(store.with_roots(slots).ledger, slot) <==> rooted(store.ledger, slot)
        || slots.contains(slot));
    lemma_highest_member(slots);
}

proof fn lemma_highest_member(slots: Seq<Slot>)
    ensures
        slots.len() > 0 ==> slots.contains(highest_of(slots)),
        slots.len() == 0 ==> highest_of(slots) == 0,
    decreases slots.len(),
{
    if slots.len() > 0 {
        let before = slots.drop_last();
        lemma_highest_member(before);
        assert(slots[slots.len() - 1] == slots.last());
        if before.len() > 0 {
            let x = choose|x: int| 0 <= x < before.len() && before[x] == highest_of(before);
            assert(slots[x] == highest_of(before));
        }
    }
}

/// A shred of a slot other than 0 has been received.
pub open spec fn has_received(ledger: LedgerView, slot: Slot) -> bool {
    slot > 0 && ledger.meta.contains_key(slot) && ledger.meta[slot].received > 0
}

/// The lowest slot is one of which a shred has been received, and none below it is; without any
/// it is the last root.
pub proof fn law_lowest_slot(store: BlockstoreView, slot: Slot)
    ensures
        has_received(store.ledger, slot) ==> has_received(store.ledger, lowest_slot(store))
            && lowest_slot(store) <= slot,
        (forall|s: Slot| !#[trigger] has_received(store.ledger, s)) ==> lowest_slot(store)
            == store.last_root,
{
    let set = slots_with_data(store.ledger);
    assert forall|s: Slot| #[trigger] set.contains(s) <==> has_received(store.ledger, s) by {
    }
    if has_received(store.ledger, slot) {
        assert(set.contains(slot));
    }
    if least(set) is Some {
        lemma_least_member(set);
        assert(has_received(store.ledger, least(set)->0));
    }
}

/// The first available block is the first that has a root mark from the lowest slot on, or 0
/// where there is none.
pub proof fn law_first_available_block(store: BlockstoreView, slot: Slot)
    ensures
        ({
            let first = first_available_block(store);
            let roots = store.ledger.roots;
            &&& roots.contains_key(slot) && slot >= lowest_slot(store) ==> roots.contains_key(first)
                && lowest_slot(store) <= first <= slot
            &&& (forall|s: Slot| #[trigger] roots.contains_key(s) ==> s < lowest_slot(store))
                ==> first == 0
        }),
{
    let set = keys_at_or_above(store.ledger.roots, lowest_slot(store));
    assert forall|s: Slot| #[trigger] set.contains(s) <==> store.ledger.roots.contains_key(s) && s
        >= lowest_slot(store) by {
    }
    if store.ledger.roots.contains_key(slot) && slot >= lowest_slot(store) {
        assert(set.contains(slot));
    }
    if least(set) is Some {
        lemma_least_member(set);
        assert(is_least(set, least(set)->0));
        assert(store.ledger.roots.contains_key(least(set)->0));
    }
}

/// A slot was skipped where it has no root mark and lies between two slots that have one.
pub proof fn law_skipped_slots(ledger: LedgerView, slot: Slot)
    ensures
        skipped(ledger, slot) <==> {
            &&& !ledger.roots.contains_key(slot)
            &&& exists|a: Slot| #[trigger] ledger.roots.contains_key(a) && a < slot
            &&& exists|b: Slot| #[trigger] ledger.roots.contains_key(b) && slot < b
        },
{
    let all = keys_at_or_above(ledger.roots, 0);
    let dom = ledger.roots.dom();
    assert forall|s: Slot| #[trigger] all.contains(s) <==> ledger.roots.contains_key(s) by {
    }
    if least(all) is Some {
        lemma_least_member(all);
        assert(ledger.roots.contains_key(least(all)->0));
    }
    if exists|s: Slot| dom.contains(s) {
        let s = choose|s: Slot| dom.contains(s);
        lemma_highest_exists(dom, s);
        let g = choose|g: Slot| is_greatest(dom, g);
        lemma_greatest(dom, g);
        assert(ledger.roots.contains_key(g));
        assert(all.contains(s));
    }
    assert forall|s: Slot| #[trigger] ledger.roots.contains_key(s) implies dom.contains(s)
        && all.contains(s) by {
    }
}

proof fn lemma_highest_exists(set: Set<u64>, s: u64)
    requires
        set.contains(s),
    ensures
        exists|g: u64| is_greatest(set, g),
    decreases u64::MAX - s,
{
    if exists|t: u64| #[trigger] set.contains(t) && t > s {
        let t = choose|t: u64| #[trigger] set.contains(t) && t > s;
        lemma_highest_exists(set, t);
    } else {
        assert(is_greatest(set, s));
    }
}

} // verus!
