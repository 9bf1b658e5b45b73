//! What an erasure set is recovered from: its own shreds, and all of them that are there.

use vstd::prelude::*;
use crate::batch::{
    batch_allowed, batch_received, batch_start, batch_step, batch_steps, ledger_sound,
    lemma_batch_steps_sound, lemma_recovered_steps_sound, lemma_start_sound, recovered_step,
    recovered_steps, state_sound, step_allowed, steps_allowed, taken_up, Progress,
    RecoveredShredView,
};
use crate::blockstore::BlockstoreView;
use crate::coding::{available_shreds, recovery_sets, recovery_shred, recovery_shreds};
use crate::column::{lemma_finite_orders, ordered_keys, SlotIndex};
use crate::consistency::{consistent, meta_agrees, stored_in};
use crate::insert::{all_received, ledger_result, sets_to_recover};
use crate::insertion::{index_entry, InsertionView};
use crate::integrity::{batch_result, stored_shreds, touched_indexes, writes_shred};
use crate::ledger::{LedgerView, WriteOpView};
use crate::meta::{count_present, ErasureMeta, ErasureMetaStatus, IndexView};
use crate::metrics::{more, BlockstoreInsertionMetrics};
use crate::shred::{parse_shred, ShredType, ShredView};
use crate::types::Slot;

verus! {

/// The members of a set of indexes from `from` up to `to`, excluded.
pub open spec fn members_in(set: Set<u64>, from: int, to: int) -> Set<u64> {
    Set::new(|i: u64| from <= i < to && set.contains(i))
}

/// As many indexes are counted as present as there are.
proof fn lemma_count_is_len(set: Set<u64>, from: int, to: int)
    requires
        0 <= from,
        to <= u64::MAX + 1,
    ensures
        members_in(set, from, to).finite(),
        count_present(set, from, to) == members_in(set, from, to).len(),
    decreases to - from,
{
    let all = members_in(set, from, to);
    if to <= from {
        assert(all =~= Set::empty());
    } else {
        lemma_count_is_len(set, from, to - 1);
        let earlier = members_in(set, from, to - 1);
        let last = (to - 1) as u64;
        if set.contains(last) {
            assert(all =~= earlier.insert(last));
        } else {
            assert(all =~= earlier);
        }
    }
}

/// A shred is of a kind, and of an index of a slot.
pub open spec fn at_home(shred: ShredView, kind: ShredType, slot: Slot, i: int) -> bool {
    &&& shred.common_header.shred_type == kind
    &&& shred.common_header.slot == slot
    &&& shred.common_header.index == i
}

/// Some shreds are those of a kind at the indexes of a set from `from` up to `to`, excluded: each
/// is of such an index, and there is one of each.
pub open spec fn shreds_of_range(
    shreds: Seq<ShredView>,
    kind: ShredType,
    slot: Slot,
    set: Set<u64>,
    from: int,
    to: int,
) -> bool {
    &&& forall|x: int| 0 <= x < shreds.len() ==> {
        let i = (#[trigger] shreds[x]).common_header.index as int;
        from <= i < to && set.contains(i as u64) && at_home(shreds[x], kind, slot, i)
    }
    &&& forall|i: u64| from <= i < to && #[trigger] set.contains(i) ==> exists|x: int|
        0 <= x < shreds.len() && at_home(#[trigger] shreds[x], kind, slot, i as int)
    &&& shreds.len() == members_in(set, from, to).len()
}

/// A shred of a kind can be had at an index where the index of its slot lists it, and only there.
spec fn had_where_listed(
    stored: Map<SlotIndex, Seq<u8>>,
    recent: Map<SlotIndex, ShredView>,
    present: Set<u64>,
    kind: ShredType,
    slot: Slot,
    i: u64,
) -> bool {
    match recovery_shred(stored, recent, present, slot, i) {
        Some(shred) => present.contains(i) && at_home(shred, kind, slot, i as int),
        None => !present.contains(i),
    }
}

/// Where the shreds of a kind that an index lists, and only these, can be had, they are
/// collected.
proof fn lemma_recovery_shreds(
    stored: Map<SlotIndex, Seq<u8>>,
    recent: Map<SlotIndex, ShredView>,
    present: Set<u64>,
    kind: ShredType,
    slot: Slot,
    from: int,
    to: int,
)
    requires
        0 <= from,
        to <= u64::MAX + 1,
        forall|i: u64| #[trigger] had_where_listed(stored, recent, present, kind, slot, i),
    ensures
        shreds_of_range(
            recovery_shreds(stored, recent, present, slot, from, to),
            kind,
            slot,
            present,
            from,
            to,
        ),
    decreases to - from,
{
    let all = recovery_shreds(stored, recent, present, slot, from, to);
    lemma_count_is_len(present, from, to);
    if to > from {
        let last = (to - 1) as u64;
        lemma_recovery_shreds(stored, recent, present, kind, slot, from, to - 1);
        lemma_count_is_len(present, from, to - 1);
        let earlier = recovery_shreds(stored, recent, present, slot, from, to - 1);
        let found = recovery_shred(stored, recent, present, slot, last);
        assert(had_where_listed(stored, recent, present, kind, slot, last));
        assert(all == match found {
            Some(shred) => earlier.push(shred),
            None => earlier,
        });
        assert forall|x: int| 0 <= x < all.len() implies {
            let i = (#[trigger] all[x]).common_header.index as int;
            from <= i < to && present.contains(i as u64) && at_home(all[x], kind, slot, i)
        } by {
            if x < earlier.len() {
                assert(all[x] == earlier[x]);
            }
        }
        assert forall|i: u64| from <= i < to && #[trigger] present.contains(i) implies exists|x: int|
            0 <= x < all.len() && at_home(#[trigger] all[x], kind, slot, i as int) by {
            if i == last {
                assert(at_home(all[earlier.len() as int], kind, slot, i as int));
            } else {
                let x = choose|x: int|
                    0 <= x < earlier.len() && at_home(
                        #[trigger] earlier[x],
                        kind,
                        slot,
                        i as int,
                    );
                assert(all[x] == earlier[x]);
            }
        }
    }
}

/// Every shred of a ledger can be read, and is kept under its own slot and index; every index is
/// that of its slot, and every erasure set is kept under its own first index.
pub open spec fn shreds_at_home(ledger: LedgerView) -> bool {
    &&& forall|k: SlotIndex| #[trigger]
        ledger.data_shreds.contains_key(k) ==> parse_shred(ledger.data_shreds[k]) is Some && at_home(
            parse_shred(ledger.data_shreds[k])->0,
            ShredType::Data,
            k.slot,
            k.index as int,
        )
    &&& forall|k: SlotIndex| #[trigger]
        ledger.code_shreds.contains_key(k) ==> parse_shred(ledger.code_shreds[k]) is Some && at_home(
            parse_shred(ledger.code_shreds[k])->0,
            ShredType::Code,
            k.slot,
            k.index as int,
        )
    &&& forall|s: u64| #[trigger] ledger.index.contains_key(s) ==> ledger.index[s].slot == s
    &&& forall|k: SlotIndex| #[trigger]
        ledger.erasure_meta.contains_key(k) ==> ledger.erasure_meta[k].set_index == k.index
}

/// The shreds that an insertion took in are kept under their own slots and indexes; the indexes
/// of its slots list them and those of the ledger, and no others; and the erasure sets of its
/// coding shreds are known, and those of its data shreds that the ledger knows.
pub open spec fn state_at_home(ledger: LedgerView, st: InsertionView) -> bool {
    &&& st.erasure_metas.dom().finite()
    &&& forall|k: SlotIndex| #[trigger]
        st.data_shreds.contains_key(k) ==> at_home(
            st.data_shreds[k],
            ShredType::Data,
            k.slot,
            k.index as int,
        ) && st.indexes.contains_key(k.slot)
    &&& forall|k: SlotIndex| #[trigger]
        st.code_shreds.contains_key(k) ==> at_home(
            st.code_shreds[k],
            ShredType::Code,
            k.slot,
            k.index as int,
        ) && st.indexes.contains_key(k.slot)
    &&& forall|s: u64| #[trigger] st.indexes.contains_key(s) ==> st.indexes[s].index.slot == s
    &&& forall|k: SlotIndex|
        st.indexes.contains_key(k.slot) ==> (#[trigger] st.indexes[k.slot].index.data.contains(
            k.index,
        ) <==> st.data_shreds.contains_key(k) || ledger.data_shreds.contains_key(k))
    &&& forall|k: SlotIndex|
        st.indexes.contains_key(k.slot) ==> (#[trigger] st.indexes[k.slot].index.coding.contains(
            k.index,
        ) <==> st.code_shreds.contains_key(k) || ledger.code_shreds.contains_key(k))
    &&& forall|k: SlotIndex| #[trigger]
        st.erasure_metas.contains_key(k) ==> st.erasure_metas[k].set_index == k.index
            && st.indexes.contains_key(k.slot)
    &&& forall|k: SlotIndex| #[trigger]
        st.code_shreds.contains_key(k) ==> st.erasure_metas.contains_key(
            set_key(st.code_shreds[k]),
        )
    &&& forall|k: SlotIndex| #[trigger]
        st.data_shreds.contains_key(k) && ledger.erasure_meta.contains_key(
            set_key(st.data_shreds[k]),
        ) ==> st.erasure_metas.contains_key(set_key(st.data_shreds[k]))
}

/// The slot and the index of a shred.
pub open spec fn home_of(shred: ShredView) -> SlotIndex {
    SlotIndex { slot: shred.common_header.slot, index: shred.common_header.index as u64 }
}

/// The slot of a shred, and the first index of its erasure set.
pub open spec fn set_key(shred: ShredView) -> SlotIndex {
    SlotIndex {
        slot: shred.common_header.slot,
        index: shred.common_header.fec_set_index as u64,
    }
}

/// The first index of the coding shreds of an erasure set: that of the data shreds, where none is
/// noted.
pub open spec fn coding_from(meta: ErasureMeta) -> int {
    if meta.first_coding_index == 0 {
        meta.set_index as int
    } else {
        meta.first_coding_index as int
    }
}

/// Of an erasure set some data shreds are missing, but with its coding shreds there are as many
/// as it has data shreds.
pub open spec fn can_be_completed(meta: ErasureMeta, index: IndexView) -> bool {
    let data = members_in(index.data, meta.set_index as int, meta.set_index + meta.config.num_data);
    let coding = members_in(
        index.coding,
        coding_from(meta),
        coding_from(meta) + meta.config.num_coding,
    );
    data.len() < meta.config.num_data <= data.len() + coding.len()
}

/// Some shreds are all those that there are of an erasure set of a slot: its data shreds, and
/// then its coding shreds.
pub open spec fn whole_set(
    shreds: Seq<ShredView>,
    slot: Slot,
    meta: ErasureMeta,
    index: IndexView,
) -> bool {
    exists|n: int|
        {
            &&& 0 <= n <= shreds.len()
            &&& shreds_of_range(
                #[trigger] shreds.take(n),
                ShredType::Data,
                slot,
                index.data,
                meta.set_index as int,
                meta.set_index + meta.config.num_data,
            )
            &&& shreds_of_range(
                shreds.skip(n),
                ShredType::Code,
                slot,
                index.coding,
                coding_from(meta),
                coding_from(meta) + meta.config.num_coding,
            )
        }
}

proof fn lemma_status(meta: ErasureMeta, index: IndexView)
    requires
        meta.in_bounds(),
    ensures
        meta.status_of(index) == ErasureMetaStatus::CanRecover <==> can_be_completed(meta, index),
{
    lemma_count_is_len(
        index.data,
        meta.set_index as int,
        meta.set_index + meta.config.num_data,
    );
    lemma_count_is_len(
        index.coding,
        coding_from(meta),
        coding_from(meta) + meta.config.num_coding,
    );
}

proof fn lemma_available(ledger: LedgerView, st: InsertionView, slot: Slot, meta: ErasureMeta)
    requires
        shreds_at_home(ledger),
        state_at_home(ledger, st),
        st.indexes.contains_key(slot),
        meta.in_bounds(),
    ensures
        whole_set(
            available_shreds(ledger, st, slot, meta),
            slot,
            meta,
            st.indexes[slot].index,
        ),
{
    let index = st.indexes[slot].index;
    let data = recovery_shreds(
        ledger.data_shreds,
        st.data_shreds,
        index.data,
        slot,
        meta.set_index as int,
        meta.set_index + meta.config.num_data,
    );
    let code = recovery_shreds(
        ledger.code_shreds,
        st.code_shreds,
        index.coding,
        slot,
        coding_from(meta),
        coding_from(meta) + meta.config.num_coding,
    );
    assert forall|i: u64| #[trigger]
        had_where_listed(
            ledger.data_shreds,
            st.data_shreds,
            index.data,
            ShredType::Data,
            slot,
            i,
        ) by {
        let k = SlotIndex { slot, index: i };
        assert(st.indexes[k.slot].index.data.contains(k.index) <==> st.data_shreds.contains_key(k)
            || ledger.data_shreds.contains_key(k));
    }
    assert forall|i: u64| #[trigger]
        had_where_listed(
            ledger.code_shreds,
            st.code_shreds,
            index.coding,
            ShredType::Code,
            slot,
            i,
        ) by {
        let k = SlotIndex { slot, index: i };
        assert(st.indexes[k.slot].index.coding.contains(k.index)
            <==> st.code_shreds.contains_key(k) || ledger.code_shreds.contains_key(k));
    }
    lemma_recovery_shreds(
        ledger.data_shreds,
        st.data_shreds,
        index.data,
        ShredType::Data,
        slot,
        meta.set_index as int,
        meta.set_index + meta.config.num_data,
    );
    lemma_recovery_shreds(
        ledger.code_shreds,
        st.code_shreds,
        index.coding,
        ShredType::Code,
        slot,
        coding_from(meta),
        coding_from(meta) + meta.config.num_coding,
    );
    let all = available_shreds(ledger, st, slot, meta);
    assert(all == data + code);
    assert(all.take(data.len() as int) =~= data);
    assert(all.skip(data.len() as int) =~= code);
}

/// The set that is handed over at a place is the whole of one of some erasure sets, and of one
/// that can be completed.
pub open spec fn hands_over(
    st: InsertionView,
    keys: Seq<SlotIndex>,
    set: Seq<ShredView>,
) -> bool {
    exists|x: int|
        0 <= x < keys.len() && {
            let k = #[trigger] keys[x];
            can_be_completed(st.erasure_metas[k], st.indexes[k.slot].index) && whole_set(
                set,
                k.slot,
                st.erasure_metas[k],
                st.indexes[k.slot].index,
            )
        }
}

/// One of the sets that are handed over is the whole of an erasure set.
pub open spec fn handed_over(st: InsertionView, sets: Seq<Seq<ShredView>>, k: SlotIndex) -> bool {
    exists|n: int|
        0 <= n < sets.len() && whole_set(
            #[trigger] sets[n],
            k.slot,
            st.erasure_metas[k],
            st.indexes[k.slot].index,
        )
}

proof fn lemma_recovery_sets(ledger: LedgerView, st: InsertionView, keys: Seq<SlotIndex>)
    requires
        shreds_at_home(ledger),
        state_at_home(ledger, st),
        forall|x: int|
            0 <= x < keys.len() ==> st.erasure_metas.contains_key(#[trigger] keys[x])
                && st.erasure_metas[keys[x]].in_bounds(),
    ensures
        ({
            let sets = recovery_sets(ledger, st, keys);
            &&& forall|n: int| 0 <= n < sets.len() ==> hands_over(st, keys, #[trigger] sets[n])
            &&& forall|x: int|
                0 <= x < keys.len() && can_be_completed(
                    st.erasure_metas[#[trigger] keys[x]],
                    st.indexes[keys[x].slot].index,
                ) ==> handed_over(st, sets, keys[x])
        }),
    decreases keys.len(),
{
    if keys.len() > 0 {
        let before = keys.drop_last();
        let last = keys.len() - 1;
        let k = keys[last];
        assert forall|x: int| 0 <= x < before.len() implies st.erasure_metas.contains_key(
            #[trigger] before[x],
        ) && st.erasure_metas[before[x]].in_bounds() by {
            assert(before[x] == keys[x]);
        }
        lemma_recovery_sets(ledger, st, before);
        let earlier = recovery_sets(ledger, st, before);
        let sets = recovery_sets(ledger, st, keys);
        let meta = st.erasure_metas[k];
        lemma_status(meta, st.indexes[k.slot].index);
        lemma_available(ledger, st, k.slot, meta);
        assert forall|n: int| 0 <= n < sets.len() implies hands_over(
            st,
            keys,
            #[trigger] sets[n],
        ) by {
            if n < earlier.len() {
                assert(sets[n] == earlier[n]);
                assert(hands_over(st, before, earlier[n]));
                let x = choose|x: int|
                    0 <= x < before.len() && {
                        let k = #[trigger] before[x];
                        can_be_completed(st.erasure_metas[k], st.indexes[k.slot].index)
                            && whole_set(
                            earlier[n],
                            k.slot,
                            st.erasure_metas[k],
                            st.indexes[k.slot].index,
                        )
                    };
                assert(keys[x] == before[x]);
            } else {
                assert(keys[last] == k);
            }
        }
        assert forall|x: int|
            0 <= x < keys.len() && can_be_completed(
                st.erasure_metas[#[trigger] keys[x]],
                st.indexes[keys[x].slot].index,
            ) implies handed_over(st, sets, keys[x]) by {
            if x < last {
                assert(before[x] == keys[x]);
                assert(handed_over(st, earlier, before[x]));
                let n = choose|n: int|
                    0 <= n < earlier.len() && whole_set(
                        #[trigger] earlier[n],
                        keys[x].slot,
                        st.erasure_metas[keys[x]],
                        st.indexes[keys[x].slot].index,
                    );
                assert(sets[n] == earlier[n]);
            } else {
                assert(whole_set(
                    sets[earlier.len() as int],
                    k.slot,
                    meta,
                    st.indexes[k.slot].index,
                ));
            }
        }
    }
}

/// A data shred is handed in: what there is stays at home.
proof fn lemma_data_at_home(
    p: Progress,
    shred: ShredView,
    is_repaired: bool,
    is_trusted: bool,
    now: u64,
    at: usize,
)
    requires
        shred.common_header.shred_type == ShredType::Data,
        shreds_at_home(p.store.ledger),
        consistent(p.store.ledger),
        state_at_home(p.store.ledger, p.state),
    ensures
        state_at_home(
            p.store.ledger,
            batch_step(p, shred, is_repaired, is_trusted, now, at).state,
        ),
{
    let ledger = p.store.ledger;
    let a = p.state;
    let b = batch_step(p, shred, is_repaired, is_trusted, now, at).state;
    let slot = shred.common_header.slot;
    let key = SlotIndex { slot, index: shred.common_header.index as u64 };
    let ie = index_entry(ledger, a.indexes, slot);
    lemma_entry_lists(ledger, a, slot);
    assert forall|k: SlotIndex|
        b.indexes.contains_key(k.slot) implies (#[trigger] b.indexes[k.slot].index.data.contains(
        k.index,
    ) <==> b.data_shreds.contains_key(k) || ledger.data_shreds.contains_key(k)) by {
        if k.slot != slot {
            assert(a.indexes[k.slot].index.data.contains(k.index) <==> a.data_shreds.contains_key(k)
                || ledger.data_shreds.contains_key(k));
        } else {
            assert(ie.index.data.contains(k.index) <==> a.data_shreds.contains_key(k)
                || ledger.data_shreds.contains_key(k));
        }
    }
    assert forall|k: SlotIndex|
        b.indexes.contains_key(k.slot) implies (#[trigger] b.indexes[k.slot].index.coding.contains(
        k.index,
    ) <==> b.code_shreds.contains_key(k) || ledger.code_shreds.contains_key(k)) by {
        if k.slot != slot {
            assert(a.indexes[k.slot].index.coding.contains(k.index)
                <==> a.code_shreds.contains_key(k) || ledger.code_shreds.contains_key(k));
        } else {
            assert(ie.index.coding.contains(k.index) <==> a.code_shreds.contains_key(k)
                || ledger.code_shreds.contains_key(k));
        }
    }
}

/// The index of a slot, as an insertion sees it, lists the shreds that there are.
proof fn lemma_entry_lists(ledger: LedgerView, st: InsertionView, slot: Slot)
    requires
        shreds_at_home(ledger),
        consistent(ledger),
        state_at_home(ledger, st),
    ensures
        ({
            let index = index_entry(ledger, st.indexes, slot).index;
            &&& index.slot == slot
            &&& forall|k: SlotIndex|
                k.slot == slot ==> (#[trigger] index.data.contains(k.index)
                    <==> st.data_shreds.contains_key(k) || ledger.data_shreds.contains_key(k))
            &&& forall|k: SlotIndex|
                k.slot == slot ==> (#[trigger] index.coding.contains(k.index)
                    <==> st.code_shreds.contains_key(k) || ledger.code_shreds.contains_key(k))
        }),
{
    let index = index_entry(ledger, st.indexes, slot).index;
    assert forall|k: SlotIndex| k.slot == slot implies (#[trigger] index.data.contains(k.index)
        <==> st.data_shreds.contains_key(k) || ledger.data_shreds.contains_key(k)) by {
        if st.indexes.contains_key(slot) {
            assert(st.indexes[k.slot].index.data.contains(k.index)
                <==> st.data_shreds.contains_key(k) || ledger.data_shreds.contains_key(k));
        } else {
            assert(!st.data_shreds.contains_key(k));
            assert(ledger.data_shreds.contains_key(k) <==> ledger.index.contains_key(k.slot)
                && ledger.index[k.slot].data.contains(k.index));
        }
    }
    assert forall|k: SlotIndex| k.slot == slot implies (#[trigger] index.coding.contains(k.index)
        <==> st.code_shreds.contains_key(k) || ledger.code_shreds.contains_key(k)) by {
        if st.indexes.contains_key(slot) {
            assert(st.indexes[k.slot].index.coding.contains(k.index)
                <==> st.code_shreds.contains_key(k) || ledger.code_shreds.contains_key(k));
        } else {
            assert(!st.code_shreds.contains_key(k));
            assert(ledger.code_shreds.contains_key(k) <==> ledger.index.contains_key(k.slot)
                && ledger.index[k.slot].coding.contains(k.index));
        }
    }
}

/// A coding shred is handed in: what there is stays at home.
proof fn lemma_code_at_home(
    p: Progress,
    shred: ShredView,
    is_repaired: bool,
    is_trusted: bool,
    now: u64,
    at: usize,
)
    requires
        shred.common_header.shred_type == ShredType::Code,
        step_allowed(p, shred, is_repaired, is_trusted, now),
        shreds_at_home(p.store.ledger),
        consistent(p.store.ledger),
        state_at_home(p.store.ledger, p.state),
    ensures
        state_at_home(
            p.store.ledger,
            batch_step(p, shred, is_repaired, is_trusted, now, at).state,
        ),
{
    let ledger = p.store.ledger;
    let a = p.state;
    let b = batch_step(p, shred, is_repaired, is_trusted, now, at).state;
    let slot = shred.common_header.slot;
    let ie = index_entry(ledger, a.indexes, slot);
    lemma_entry_lists(ledger, a, slot);
    assert forall|k: SlotIndex|
        b.indexes.contains_key(k.slot) implies (#[trigger] b.indexes[k.slot].index.data.contains(
        k.index,
    ) <==> b.data_shreds.contains_key(k) || ledger.data_shreds.contains_key(k)) by {
        if k.slot != slot {
            assert(a.indexes[k.slot].index.data.contains(k.index) <==> a.data_shreds.contains_key(k)
                || ledger.data_shreds.contains_key(k));
        } else {
            assert(ie.index.data.contains(k.index) <==> a.data_shreds.contains_key(k)
                || ledger.data_shreds.contains_key(k));
        }
    }
    assert forall|k: SlotIndex|
        b.indexes.contains_key(k.slot) implies (#[trigger] b.indexes[k.slot].index.coding.contains(
        k.index,
    ) <==> b.code_shreds.contains_key(k) || ledger.code_shreds.contains_key(k)) by {
        if k.slot != slot {
            assert(a.indexes[k.slot].index.coding.contains(k.index)
                <==> a.code_shreds.contains_key(k) || ledger.code_shreds.contains_key(k));
        } else {
            assert(ie.index.coding.contains(k.index) <==> a.code_shreds.contains_key(k)
                || ledger.code_shreds.contains_key(k));
        }
    }
}

/// A batch is handed in: what there is stays at home.
proof fn lemma_batch_at_home(
    p0: Progress,
    shreds: Seq<ShredView>,
    is_repaired: Seq<bool>,
    is_trusted: bool,
    now: u64,
)
    requires
        steps_allowed(p0, shreds, is_repaired, is_trusted, now),
        ledger_sound(p0.store.ledger),
        state_sound(p0.store.ledger, p0.state),
        shreds_at_home(p0.store.ledger),
        consistent(p0.store.ledger),
        state_at_home(p0.store.ledger, p0.state),
    ensures
        ({
            let p = batch_steps(p0, shreds, is_repaired, is_trusted, now);
            &&& shreds_at_home(p.store.ledger)
            &&& consistent(p.store.ledger)
            &&& state_at_home(p.store.ledger, p.state)
        }),
    decreases shreds.len(),
{
    lemma_batch_steps_sound(p0, shreds, is_repaired, is_trusted, now);
    if shreds.len() > 0 {
        let before = shreds.drop_last();
        let n = shreds.len() - 1;
        lemma_batch_at_home(p0, before, is_repaired, is_trusted, now);
        lemma_batch_steps_sound(p0, before, is_repaired, is_trusted, now);
        let p = batch_steps(p0, before, is_repaired, is_trusted, now);
        let shred = shreds.last();
        if shred.common_header.shred_type == ShredType::Data {
            lemma_data_at_home(p, shred, is_repaired[n], is_trusted, now, n as usize);
        } else {
            lemma_code_at_home(p, shred, is_repaired[n], is_trusted, now, n as usize);
        }
        let q = batch_steps(p0, shreds, is_repaired, is_trusted, now);
        lemma_home_same(p.store.ledger, q.store.ledger, q.state);
    }
}

/// Proofs that a slot has two versions do not matter for the shreds.
proof fn lemma_home_same(a: LedgerView, b: LedgerView, st: InsertionView)
    requires
        b.data_shreds == a.data_shreds,
        b.code_shreds == a.code_shreds,
        b.index == a.index,
        b.erasure_meta == a.erasure_meta,
        b.meta == a.meta,
        state_at_home(a, st),
        shreds_at_home(a),
        consistent(a),
    ensures
        state_at_home(b, st),
        shreds_at_home(b),
        consistent(b),
{
    assert forall|k: SlotIndex| #[trigger]
        b.data_shreds.contains_key(k) implies parse_shred(b.data_shreds[k]) is Some && at_home(
        parse_shred(b.data_shreds[k])->0,
        ShredType::Data,
        k.slot,
        k.index as int,
    ) by {
        assert(a.data_shreds.contains_key(k));
    }
    assert forall|s: u64| #[trigger] b.meta.contains_key(s) implies meta_agrees(
        b.meta[s],
        stored_in(b, s),
    ) by {
        assert(a.meta.contains_key(s));
        assert(stored_in(a, s) =~= stored_in(b, s));
    }
}

/// The shreds of a set that can be completed are enough to complete it.
proof fn lemma_enough(shreds: Seq<ShredView>, slot: Slot, meta: ErasureMeta, index: IndexView)
    requires
        whole_set(shreds, slot, meta, index),
        can_be_completed(meta, index),
    ensures
        shreds.len() >= meta.config.num_data,
{
    let n = choose|n: int|
        {
            &&& 0 <= n <= shreds.len()
            &&& shreds_of_range(
                #[trigger] shreds.take(n),
                ShredType::Data,
                slot,
                index.data,
                meta.set_index as int,
                meta.set_index + meta.config.num_data,
            )
            &&& shreds_of_range(
                shreds.skip(n),
                ShredType::Code,
                slot,
                index.coding,
                coding_from(meta),
                coding_from(meta) + meta.config.num_coding,
            )
        };
    assert(shreds.take(n).len() + shreds.skip(n).len() == shreds.len());
}

/// Every set of shreds that is handed over to be recovered is the whole of one erasure set that
/// the batch touched: all its data shreds that are there, each of an index of the set, and all
/// its coding shreds that are there, and no others. Some of its data shreds are missing, and
/// there are enough shreds to recover them. Every touched set of which both is true is handed
/// over. A set is touched by its coding shreds, and by its data shreds where it is known.
pub proof fn law_sets_are_recovered_from_their_own_shreds(
    store: BlockstoreView,
    shreds: Seq<ShredView>,
    is_repaired: Seq<bool>,
    is_trusted: bool,
    now: u64,
    metrics: BlockstoreInsertionMetrics,
)
    requires
        ledger_sound(store.ledger),
        consistent(store.ledger),
        shreds_at_home(store.ledger),
        batch_allowed(store, shreds, is_repaired, is_trusted, now, metrics),
    ensures
        ({
            let p = batch_received(store, shreds, is_repaired, is_trusted, now, metrics);
            let sets = sets_to_recover(store, shreds, is_repaired, is_trusted, now, metrics);
            &&& state_at_home(store.ledger, p.state)
            &&& forall|n: int|
                0 <= n < sets.len() ==> recovers_one(p.state, #[trigger] sets[n])
            &&& forall|k: SlotIndex| #[trigger]
                p.state.erasure_metas.contains_key(k) && can_be_completed(
                    p.state.erasure_metas[k],
                    p.state.indexes[k.slot].index,
                ) ==> handed_over(p.state, sets, k)
        }),
{
    let p0 = Progress { store, state: batch_start(metrics, shreds.len() as usize) };
    let p = batch_received(store, shreds, is_repaired, is_trusted, now, metrics);
    let sets = sets_to_recover(store, shreds, is_repaired, is_trusted, now, metrics);
    lemma_start_sound(store.ledger, p0.state.metrics);
    lemma_batch_at_home(p0, shreds, is_repaired, is_trusted, now);
    lemma_batch_steps_sound(p0, shreds, is_repaired, is_trusted, now);
    let st = p.state;
    let keys = ordered_keys(st.erasure_metas);
    lemma_finite_orders(st.erasure_metas);
    assert forall|x: int| 0 <= x < keys.len() implies st.erasure_metas.contains_key(
        #[trigger] keys[x],
    ) && st.erasure_metas[keys[x]].in_bounds() by {
        assert(keys.contains(keys[x]));
    }
    lemma_recovery_sets(p.store.ledger, st, keys);
    lemma_home_same(p.store.ledger, store.ledger, st);
    assert forall|n: int| 0 <= n < sets.len() implies recovers_one(st, #[trigger] sets[n]) by {
        assert(hands_over(st, keys, sets[n]));
        let x = choose|x: int|
            0 <= x < keys.len() && {
                let k = #[trigger] keys[x];
                can_be_completed(st.erasure_metas[k], st.indexes[k.slot].index) && whole_set(
                    sets[n],
                    k.slot,
                    st.erasure_metas[k],
                    st.indexes[k.slot].index,
                )
            };
        let k = keys[x];
        lemma_enough(sets[n], k.slot, st.erasure_metas[k], st.indexes[k.slot].index);
        assert(st.erasure_metas.contains_key(k));
    }
    assert forall|k: SlotIndex| #[trigger]
        st.erasure_metas.contains_key(k) && can_be_completed(
            st.erasure_metas[k],
            st.indexes[k.slot].index,
        ) implies handed_over(st, sets, k) by {
        assert(keys.contains(k));
        let x = choose|x: int| 0 <= x < keys.len() && keys[x] == k;
        assert(can_be_completed(st.erasure_metas[keys[x]], st.indexes[keys[x].slot].index));
    }
}

/// Some shreds are all those that there are of one erasure set that the batch touched and that
/// can be completed, and they are at least as many as the set has data shreds.
pub open spec fn recovers_one(st: InsertionView, set: Seq<ShredView>) -> bool {
    exists|k: SlotIndex|
        {
            &&& #[trigger] st.erasure_metas.contains_key(k)
            &&& st.erasure_metas[k].set_index == k.index
            &&& can_be_completed(st.erasure_metas[k], st.indexes[k.slot].index)
            &&& whole_set(set, k.slot, st.erasure_metas[k], st.indexes[k.slot].index)
            &&& set.len() >= st.erasure_metas[k].config.num_data
        }
}

/// An erasure set is full where none of its data shreds is missing. Where some are, it can be
/// recovered once its data and coding shreds together are as many as it has data shreds; until
/// then, as many shreds are still needed as are lacking to that.
pub proof fn law_state_of_an_erasure_set(meta: ErasureMeta, index: IndexView)
    requires
        meta.in_bounds(),
    ensures
        ({
            let data = members_in(
                index.data,
                meta.set_index as int,
                meta.set_index + meta.config.num_data,
            ).len();
            let coding = members_in(
                index.coding,
                coding_from(meta),
                coding_from(meta) + meta.config.num_coding,
            ).len();
            let status = meta.status_of(index);
            &&& data <= meta.config.num_data
            &&& status is DataFull <==> forall|i: u64|
                meta.set_index <= i < meta.set_index + meta.config.num_data
                    ==> #[trigger] index.data.contains(i)
            &&& status is CanRecover <==> data < meta.config.num_data <= data + coding
            &&& status is StillNeed <==> data + coding < meta.config.num_data
            &&& status matches ErasureMetaStatus::StillNeed(needed) ==> needed + data + coding
                == meta.config.num_data
        }),
{
    let from = meta.set_index as int;
    let to = meta.set_index + meta.config.num_data;
    lemma_count_is_len(index.data, from, to);
    lemma_count_is_len(
        index.coding,
        coding_from(meta),
        coding_from(meta) + meta.config.num_coding,
    );
    lemma_full_range(index.data, from, to);
}

proof fn lemma_full_range(set: Set<u64>, from: int, to: int)
    requires
        0 <= from <= to,
        to <= u64::MAX + 1,
    ensures
        members_in(set, from, to).len() <= to - from,
        members_in(set, from, to).len() == to - from <==> forall|i: u64|
            from <= i < to ==> #[trigger] set.contains(i),
    decreases to - from,
{
    lemma_count_is_len(set, from, to);
    let all = members_in(set, from, to);
    if to <= from {
        assert(all =~= Set::empty());
    } else {
        lemma_full_range(set, from, to - 1);
        lemma_count_is_len(set, from, to - 1);
        let earlier = members_in(set, from, to - 1);
        let last = (to - 1) as u64;
        if set.contains(last) {
            assert(all =~= earlier.insert(last));
        } else {
            assert(all =~= earlier);
        }
    }
}

/// A recovered shred is handed in: what there is stays at home.
proof fn lemma_recovered_at_home(
    p: Progress,
    recovered: RecoveredShredView,
    is_trusted: bool,
    now: u64,
)
    requires
        recovered.shred.common_header.shred_type == ShredType::Data,
        shreds_at_home(p.store.ledger),
        consistent(p.store.ledger),
        state_at_home(p.store.ledger, p.state),
    ensures
        state_at_home(p.store.ledger, recovered_step(p, recovered, is_trusted, now).state),
{
    let shred = recovered.shred;
    let as_received = batch_step(p, shred, false, is_trusted, now, 0).state;
    let next = recovered_step(p, recovered, is_trusted, now).state;
    lemma_data_at_home(p, shred, false, is_trusted, now, 0);
    if recovered.verified == Some(true) && taken_up(p, shred, is_trusted, now) {
        assert(next.indexes == as_received.indexes);
        assert(next.data_shreds == as_received.data_shreds);
        assert(next.code_shreds == as_received.code_shreds);
        assert(next.erasure_metas == as_received.erasure_metas);
    }
}

/// A shred reads back, with its common header, from what is kept of it.
pub open spec fn reads_back(shred: ShredView) -> bool {
    let bytes = if shred.common_header.shred_type == ShredType::Data {
        shred.payload.take(shred.data_header.size as int)
    } else {
        shred.payload
    };
    parse_shred(bytes) is Some && parse_shred(bytes)->0.common_header == shred.common_header
}

/// The data shreds that were taken in read back, and the coding shreds that are to be written are
/// written under their own slots and indexes.
spec fn kept_at_home(st: InsertionView) -> bool {
    &&& forall|k: SlotIndex| #[trigger] st.data_shreds.contains_key(k) ==> reads_back(st.data_shreds[k])
    &&& forall|x: int| 0 <= x < st.write_batch.len() ==> #[trigger] code_write_at_home(st.write_batch[x])
}

spec fn code_write_at_home(op: WriteOpView) -> bool {
    op matches WriteOpView::PutCodeShred(k, bytes) ==> parse_shred(bytes) is Some && at_home(
        parse_shred(bytes)->0,
        ShredType::Code,
        k.slot,
        k.index as int,
    )
}

proof fn lemma_batch_kept(
    p0: Progress,
    shreds: Seq<ShredView>,
    is_repaired: Seq<bool>,
    is_trusted: bool,
    now: u64,
)
    requires
        kept_at_home(p0.state),
        forall|x: int| 0 <= x < shreds.len() ==> reads_back(#[trigger] shreds[x]),
    ensures
        kept_at_home(batch_steps(p0, shreds, is_repaired, is_trusted, now).state),
    decreases shreds.len(),
{
    if shreds.len() > 0 {
        let before = shreds.drop_last();
        let n = shreds.len() - 1;
        assert forall|x: int| 0 <= x < before.len() implies reads_back(#[trigger] before[x]) by {
            assert(before[x] == shreds[x]);
        }
        lemma_batch_kept(p0, before, is_repaired, is_trusted, now);
        assert(reads_back(shreds[n]));
        let p = batch_steps(p0, before, is_repaired, is_trusted, now);
        let q = batch_step(p, shreds.last(), is_repaired[n], is_trusted, now, n as usize);
        assert(q == batch_steps(p0, shreds, is_repaired, is_trusted, now));
        assert forall|x: int| 0 <= x < q.state.write_batch.len() implies
            #[trigger] code_write_at_home(q.state.write_batch[x]) by {
            if x < p.state.write_batch.len() {
                assert(q.state.write_batch[x] == p.state.write_batch[x]);
            }
        }
    }
}

proof fn lemma_recovered_kept(
    p0: Progress,
    recovered: Seq<RecoveredShredView>,
    is_trusted: bool,
    now: u64,
)
    requires
        shreds_at_home(p0.store.ledger),
        consistent(p0.store.ledger),
        state_at_home(p0.store.ledger, p0.state),
        ledger_sound(p0.store.ledger),
        state_sound(p0.store.ledger, p0.state),
        kept_at_home(p0.state),
        forall|x: int|
            0 <= x < recovered.len() ==> reads_back((#[trigger] recovered[x]).shred)
                && recovered[x].shred.common_header.shred_type == ShredType::Data,
    ensures
        ({
            let p = recovered_steps(p0, recovered, is_trusted, now);
            &&& shreds_at_home(p.store.ledger)
            &&& consistent(p.store.ledger)
            &&& state_at_home(p.store.ledger, p.state)
            &&& kept_at_home(p.state)
        }),
    decreases recovered.len(),
{
    if recovered.len() > 0 {
        let before = recovered.drop_last();
        let n = recovered.len() - 1;
        assert forall|x: int| 0 <= x < before.len() implies reads_back(
            (#[trigger] before[x]).shred,
        ) && before[x].shred.common_header.shred_type == ShredType::Data by {
            assert(before[x] == recovered[x]);
        }
        lemma_recovered_kept(p0, before, is_trusted, now);
        assert(reads_back(recovered[n].shred));
        let p = recovered_steps(p0, before, is_trusted, now);
        let q = recovered_step(p, recovered.last(), is_trusted, now);
        assert(q == recovered_steps(p0, recovered, is_trusted, now));
        lemma_recovered_at_home(p, recovered.last(), is_trusted, now);
        lemma_recovered_steps_sound(p0, before, is_trusted, now);
        lemma_recovered_steps_sound(p0, recovered, is_trusted, now);
        lemma_home_same(p.store.ledger, q.store.ledger, q.state);
        assert forall|x: int| 0 <= x < q.state.write_batch.len() implies
            #[trigger] code_write_at_home(q.state.write_batch[x]) by {
            if x < p.state.write_batch.len() {
                assert(q.state.write_batch[x] == p.state.write_batch[x]);
            }
        }
    }
}

/// Writes of coding shreds under their own slots and indexes keep the coding shreds there.
proof fn lemma_code_writes(ledger: LedgerView, ops: Seq<WriteOpView>)
    requires
        forall|x: int| 0 <= x < ops.len() ==> #[trigger] code_write_at_home(ops[x]),
        forall|x: int| 0 <= x < ops.len() ==> writes_shred(#[trigger] ops[x]),
        forall|k: SlotIndex| #[trigger]
            ledger.code_shreds.contains_key(k) ==> parse_shred(ledger.code_shreds[k]) is Some
                && at_home(
                parse_shred(ledger.code_shreds[k])->0,
                ShredType::Code,
                k.slot,
                k.index as int,
            ),
    ensures
        forall|k: SlotIndex| #[trigger]
            ledger.apply_all(ops).code_shreds.contains_key(k) ==> parse_shred(
                ledger.apply_all(ops).code_shreds[k],
            ) is Some && at_home(
                parse_shred(ledger.apply_all(ops).code_shreds[k])->0,
                ShredType::Code,
                k.slot,
                k.index as int,
            ),
    decreases ops.len(),
{
    if ops.len() > 0 {
        let n = ops.len() - 1;
        let before = ops.drop_last();
        assert forall|x: int| 0 <= x < before.len() implies #[trigger] code_write_at_home(
            before[x],
        ) && writes_shred(before[x]) by {
            assert(before[x] == ops[x]);
        }
        lemma_code_writes(ledger, before);
        assert(code_write_at_home(ops[n]) && writes_shred(ops[n]));
        assert(ledger.apply_all(ops) == ledger.apply_all(before).apply(ops[n]));
    }
}

/// What a batch leaves in the ledger is at home.
proof fn lemma_result_at_home(l: LedgerView, st: InsertionView, after: LedgerView)
    requires
        batch_result(l, st, after),
        after.code_shreds == l.apply_all(st.write_batch).code_shreds,
        shreds_at_home(l),
        state_at_home(l, st),
        kept_at_home(st),
        forall|x: int|
            0 <= x < st.write_batch.len() ==> writes_shred(#[trigger] st.write_batch[x]),
    ensures
        shreds_at_home(after),
{
    lemma_code_writes(l, st.write_batch);
    assert forall|k: SlotIndex| #[trigger] after.data_shreds.contains_key(k) implies parse_shred(
        after.data_shreds[k],
    ) is Some && at_home(
        parse_shred(after.data_shreds[k])->0,
        ShredType::Data,
        k.slot,
        k.index as int,
    ) by {
        if st.data_shreds.contains_key(k) {
            assert(reads_back(st.data_shreds[k]));
            assert(stored_shreds(st.data_shreds).contains_key(k));
        } else {
            assert(!stored_shreds(st.data_shreds).contains_key(k));
            assert(l.data_shreds.contains_key(k));
        }
    }
    assert forall|s: u64| #[trigger] after.index.contains_key(s) implies after.index[s].slot
        == s by {
        let touched = touched_indexes(st.indexes);
        if touched.contains_key(s) {
            assert(st.indexes.contains_key(s));
        } else {
            assert(l.index.contains_key(s));
        }
    }
    assert forall|k: SlotIndex| #[trigger] after.erasure_meta.contains_key(k) implies
        after.erasure_meta[k].set_index == k.index by {
        if st.erasure_metas.contains_key(k) {
        } else {
            assert(l.erasure_meta.contains_key(k));
        }
    }
}

/// An insertion keeps every shred under its own slot and index, the index of every slot its own,
/// and every erasure set under its own first index, where the shreds that are handed in read back
/// from what is kept of them.
pub proof fn law_shreds_stay_at_home(
    store: BlockstoreView,
    shreds: Seq<ShredView>,
    is_repaired: Seq<bool>,
    is_trusted: bool,
    now: u64,
    metrics: BlockstoreInsertionMetrics,
    recovered: Option<Seq<RecoveredShredView>>,
    after: LedgerView,
)
    requires
        ledger_sound(store.ledger),
        consistent(store.ledger),
        shreds_at_home(store.ledger),
        batch_allowed(store, shreds, is_repaired, is_trusted, now, metrics),
        ledger_result(store, after, shreds, is_repaired, is_trusted, now, metrics, recovered),
        forall|x: int| 0 <= x < shreds.len() ==> reads_back(#[trigger] shreds[x]),
        recovered matches Some(r) ==> forall|x: int|
            0 <= x < r.len() ==> reads_back((#[trigger] r[x]).shred)
                && r[x].shred.common_header.shred_type == ShredType::Data,
    ensures
        shreds_at_home(after),
{
    let p0 = Progress { store, state: batch_start(metrics, shreds.len() as usize) };
    let p = batch_received(store, shreds, is_repaired, is_trusted, now, metrics);
    lemma_start_sound(store.ledger, p0.state.metrics);
    lemma_batch_at_home(p0, shreds, is_repaired, is_trusted, now);
    lemma_batch_steps_sound(p0, shreds, is_repaired, is_trusted, now);
    lemma_batch_kept(p0, shreds, is_repaired, is_trusted, now);
    lemma_batch_write_shreds(p0, shreds, is_repaired, is_trusted, now);
    let q = all_received(store, shreds, is_repaired, is_trusted, now, metrics, recovered);
    if recovered is Some {
        let r = recovered->0;
        let p1 = Progress {
            state: InsertionView {
                metrics: BlockstoreInsertionMetrics {
                    num_recovered: more(p.state.metrics.num_recovered, r.len() as usize),
                    ..p.state.metrics
                },
                ..p.state
            },
            ..p
        };
        lemma_recovered_kept(p1, r, is_trusted, now);
        lemma_recovered_write_shreds(p1, r, is_trusted, now);
        assert(q == recovered_steps(p1, r, is_trusted, now));
    }
    lemma_result_at_home(q.store.ledger, q.state, after);
}

/// Handing in shreds writes shreds and marks slots dead, and nothing else.
proof fn lemma_batch_write_shreds(
    p0: Progress,
    shreds: Seq<ShredView>,
    is_repaired: Seq<bool>,
    is_trusted: bool,
    now: u64,
)
    requires
        forall|x: int|
            0 <= x < p0.state.write_batch.len() ==> writes_shred(
                #[trigger] p0.state.write_batch[x],
            ),
    ensures
        ({
            let ops = batch_steps(p0, shreds, is_repaired, is_trusted, now).state.write_batch;
            forall|x: int| 0 <= x < ops.len() ==> writes_shred(#[trigger] ops[x])
        }),
    decreases shreds.len(),
{
    if shreds.len() > 0 {
        let before = shreds.drop_last();
        let n = shreds.len() - 1;
        lemma_batch_write_shreds(p0, before, is_repaired, is_trusted, now);
        let p = batch_steps(p0, before, is_repaired, is_trusted, now);
        let q = batch_step(p, shreds.last(), is_repaired[n], is_trusted, now, n as usize);
        assert(q == batch_steps(p0, shreds, is_repaired, is_trusted, now));
        assert forall|x: int| 0 <= x < q.state.write_batch.len() implies writes_shred(
            #[trigger] q.state.write_batch[x],
        ) by {
            if x < p.state.write_batch.len() {
                assert(q.state.write_batch[x] == p.state.write_batch[x]);
            }
        }
    }
}

/// Handing in recovered shreds writes shreds and marks slots dead, and nothing else.
proof fn lemma_recovered_write_shreds(
    p0: Progress,
    recovered: Seq<RecoveredShredView>,
    is_trusted: bool,
    now: u64,
)
    requires
        forall|x: int|
            0 <= x < p0.state.write_batch.len() ==> writes_shred(
                #[trigger] p0.state.write_batch[x],
            ),
    ensures
        ({
            let ops = recovered_steps(p0, recovered, is_trusted, now).state.write_batch;
            forall|x: int| 0 <= x < ops.len() ==> writes_shred(#[trigger] ops[x])
        }),
    decreases recovered.len(),
{
    if recovered.len() > 0 {
        let before = recovered.drop_last();
        lemma_recovered_write_shreds(p0, before, is_trusted, now);
        let p = recovered_steps(p0, before, is_trusted, now);
        let q = recovered_step(p, recovered.last(), is_trusted, now);
        assert(q == recovered_steps(p0, recovered, is_trusted, now));
        assert forall|x: int| 0 <= x < q.state.write_batch.len() implies writes_shred(
            #[trigger] q.state.write_batch[x],
        ) by {
            if x < p.state.write_batch.len() {
                assert(q.state.write_batch[x] == p.state.write_batch[x]);
            }
        }
    }
}

} // verus!
