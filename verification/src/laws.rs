//! What holds of the store across its operations.

use vstd::prelude::*;
use crate::batch::{
    batch_received, batch_start, batch_steps, batch_writes, index_writes, ledger_sound, meta_sound,
    Progress,
};
use crate::blockstore::{lemma_apply_one, BlockstoreView};
use crate::chaining::{chained_batch, inserted_into, ChainView, MetaEntryView};
use crate::coding::{code_readable, erasure_in_bounds};
use crate::column::{
    greatest, is_greatest, lemma_finite_orders, lemma_greatest, lemma_ordered_keys, ordered_keys,
    SlotIndex,
};
use crate::consistency::{consistent, ends_marked, ends_run, meta_agrees, stored_in};
use crate::insert::batch_inserted;
use crate::insertion::{index_entry, shred_key, CompletedDataSetInfo, IndexEntryView, InsertionView};
use crate::ledger::{lemma_apply_all_concat, LedgerView, WriteOpView};
use crate::meta::{AddressSignatureMeta, ErasureMeta, SlotMetaView, TransactionStatusIndexMeta};
use crate::metrics::BlockstoreInsertionMetrics;
use crate::purge::{purge_writes, PurgeType};
use crate::records::TransactionStatusMetaView;
use crate::roots::{highest_of, or_zero, root_writes, rooted};
use crate::shred::{parse_shred, ShredView};
use crate::transactions::{
    address_writes, can_write_status, flipped, index_setup_writes, index_to_purge, indexes_paired,
    status_at, status_writes, toggle_writes,
};
use crate::types::{AddressKey, Pubkey, Signature, Slot, StatusKey};

verus! {

proof fn lemma_root_writes_apply(ledger: LedgerView, slots: Seq<Slot>)
    ensures
        ({
            let after = ledger.apply_all(root_writes(slots));
            &&& after == LedgerView { roots: after.roots, ..ledger }
            &&& forall|k: u64| #[trigger]
                after.roots.contains_key(k) <==> ledger.roots.contains_key(k) || slots.contains(k)
            &&& forall|k: u64| #[trigger]
                after.roots.contains_key(k) ==> after.roots[k] == if slots.contains(k) {
                    true
                } else {
                    ledger.roots[k]
                }
        }),
    decreases slots.len(),
{
    let ops = root_writes(slots);
    if slots.len() > 0 {
        let before = slots.drop_last();
        lemma_root_writes_apply(ledger, before);
        assert(ops.drop_last() =~= root_writes(before));
        assert forall|k: u64| slots.contains(k) <==> (before.contains(k) || k == slots.last()) by {
            if slots.contains(k) {
                let j = choose|j: int| 0 <= j < slots.len() && slots[j] == k;
                if j < before.len() {
                    assert(before[j] == k);
                }
            }
            if before.contains(k) {
                let j = choose|j: int| 0 <= j < before.len() && before[j] == k;
                assert(slots[j] == k);
            }
        }
    } else {
        assert(ops =~= Seq::empty());
    }
}

proof fn lemma_highest_of(slots: Seq<Slot>)
    ensures
        forall|k: u64| #[trigger] slots.contains(k) ==> k <= highest_of(slots),
        slots.len() > 0 ==> slots.contains(highest_of(slots)),
    decreases slots.len(),
{
    if slots.len() > 0 {
        let before = slots.drop_last();
        lemma_highest_of(before);
        assert forall|k: u64| #[trigger] slots.contains(k) implies k <= highest_of(slots) by {
            let j = choose|j: int| 0 <= j < slots.len() && slots[j] == k;
            if j < before.len() {
                assert(before[j] == k);
                assert(before.contains(k));
            }
        }
        if before.len() > 0 {
            let h = highest_of(before);
            let j = choose|j: int| 0 <= j < before.len() && before[j] == h;
            assert(slots[j] == h);
        }
        assert(slots[slots.len() - 1] == slots.last());
    }
}

/// Rooting slots makes exactly these slots roots beside the earlier ones, and touches no other
/// column. The last root becomes the highest of them, if that is higher. A last root that is not
/// set, which the highest number stands for, counts as slot 0.
pub proof fn law_set_roots(store: BlockstoreView, slots: Seq<Slot>)
    ensures
        ({
            let after = store.with_roots(slots);
            let last = if store.last_root == u64::MAX {
                0
            } else {
                store.last_root
            };
            &&& forall|k: u64| #[trigger]
                rooted(after.ledger, k) <==> rooted(store.ledger, k) || slots.contains(k)
            &&& after.ledger == LedgerView { roots: after.ledger.roots, ..store.ledger }
            &&& after.last_root == if highest_of(slots) > last {
                highest_of(slots)
            } else {
                last
            }
            &&& forall|k: u64| #[trigger] slots.contains(k) ==> k <= after.last_root
        }),
{
    lemma_root_writes_apply(store.ledger, slots);
    lemma_highest_of(slots);
    let after = store.with_roots(slots);
    assert forall|k: u64| rooted(after.ledger, k) <==> rooted(store.ledger, k) || slots.contains(
        k,
    ) by {
        assert(after.ledger.roots.contains_key(k) <==> store.ledger.roots.contains_key(k)
            || slots.contains(k));
    }
}

/// The last root is the highest root: a store that is opened so stays so when slots are
/// rooted.
pub proof fn law_last_root_is_highest(store: BlockstoreView, slots: Seq<Slot>)
    requires
        store.last_root != u64::MAX,
        store.last_root == or_zero(greatest(store.ledger.roots.dom())),
        greatest(store.ledger.roots.dom()) is Some ==> is_greatest(
            store.ledger.roots.dom(),
            greatest(store.ledger.roots.dom())->0,
        ),
    ensures
        store.with_roots(slots).last_root == or_zero(
            greatest(store.with_roots(slots).ledger.roots.dom()),
        ),
{
    lemma_root_writes_apply(store.ledger, slots);
    lemma_highest_of(slots);
    let before = store.ledger.roots.dom();
    let after = store.with_roots(slots);
    let set = after.ledger.roots.dom();
    let h = after.last_root;
    if exists|k: u64| set.contains(k) {
        assert forall|k: u64| #[trigger] set.contains(k) implies k <= h by {
            assert(after.ledger.roots.contains_key(k));
            if before.contains(k) {
            } else {
                assert(slots.contains(k));
            }
        }
        assert(set.contains(h)) by {
            let k = choose|k: u64| set.contains(k);
            assert(after.ledger.roots.contains_key(k));
            if slots.len() > 0 && highest_of(slots) >= store.last_root {
                assert(after.ledger.roots.contains_key(highest_of(slots)));
            } else {
                if slots.len() == 0 {
                    assert(!slots.contains(k));
                }
                if greatest(before) is Some {
                    assert(after.ledger.roots.contains_key(store.last_root));
                } else {
                    assert(!before.contains(k));
                    assert(slots.contains(k));
                }
            }
        }
        lemma_greatest(set, h);
    } else {
        if slots.len() > 0 {
            assert(after.ledger.roots.contains_key(highest_of(slots)));
            assert(set.contains(highest_of(slots)));
        }
        assert forall|k: u64| !before.contains(k) by {
            if before.contains(k) {
                assert(after.ledger.roots.contains_key(k));
                assert(set.contains(k));
            }
        }
    }
}

/// The two primary indexes are in order: both are set up, the active one is not frozen, and
/// the other one is, unless nothing was frozen yet.
pub open spec fn indexes_ordered(store: BlockstoreView) -> bool {
    let metas = store.ledger.transaction_status_index;
    let active = store.active_transaction_status_index;
    &&& metas.contains_key(0)
    &&& metas.contains_key(1)
    &&& active == 0 || active == 1
    &&& !metas[active].frozen
    &&& active == 1 ==> metas[0].frozen
}

proof fn lemma_two_writes(ledger: LedgerView, ops: Seq<WriteOpView>)
    requires
        ops.len() == 2,
    ensures
        ledger.apply_all(ops) == ledger.apply(ops[0]).apply(ops[1]),
{
    assert(ops.drop_last() =~= seq![ops[0]]);
    lemma_apply_one(ledger, ops[0]);
}

/// Setting up the indexes puts them in order, with index 0 active.
pub proof fn law_setup_orders_indexes(ledger: LedgerView)
    ensures
        ({
            let after = ledger.apply_all(index_setup_writes());
            &&& after.transaction_status_index.contains_key(0)
            &&& after.transaction_status_index.contains_key(1)
            &&& !after.transaction_status_index[0].frozen
            &&& !after.transaction_status_index[1].frozen
        }),
{
    let ops = index_setup_writes();
    let a = ops.take(2);
    let b = ops.skip(2);
    assert(a + b =~= ops);
    lemma_apply_all_concat(ledger, a, b);
    lemma_two_writes(ledger, a);
    lemma_two_writes(ledger.apply_all(a), b);
}

/// A purge by primary index keeps the indexes in order. Nothing is written to an index that is
/// being emptied: it becomes active with no slots.
pub proof fn law_purge_keeps_indexes_ordered(store: BlockstoreView, from: Slot, to: Slot)
    requires
        indexes_ordered(store),
    ensures
        ({
            let after = store.purged(from, to, PurgeType::PrimaryIndex);
            &&& indexes_ordered(after)
            &&& index_to_purge(store.ledger, to) matches Some(i) ==> {
                &&& after.active_transaction_status_index == i
                &&& after.ledger.transaction_status_index[i].max_slot == 0
                &&& forall|k: StatusKey| #[trigger]
                    after.ledger.transaction_status.contains_key(k) ==> k.primary_index != i
                &&& forall|k: AddressKey| #[trigger]
                    after.ledger.address_signatures.contains_key(k) ==> k.primary_index != i
            }
            &&& index_to_purge(store.ledger, to) is None ==> after.ledger.transaction_status
                == store.ledger.transaction_status && after.ledger.address_signatures
                == store.ledger.address_signatures
        }),
{
    lemma_purge_apply(store.ledger, from, to);
    let ledger = store.ledger;
    let after = store.purged(from, to, PurgeType::PrimaryIndex);
    match index_to_purge(ledger, to) {
        Some(i) => {
            assert(i < u64::MAX);
            assert forall|k: StatusKey| #[trigger]
                after.ledger.transaction_status.contains_key(k) implies k.primary_index != i by {
            }
        },
        None => {},
    }
}

/// What a purge by primary index leaves in the ledger.
pub proof fn lemma_purge_apply(ledger: LedgerView, from: Slot, to: Slot)
    requires
        indexes_paired(ledger),
    ensures
        ({
            let after = ledger.apply_all(
                purge_writes(ledger, from, to, PurgeType::PrimaryIndex),
            );
            let slots = ledger.without(from, to);
            let metas = ledger.transaction_status_index;
            let purged = match index_to_purge(ledger, to) {
                Some(i) => slots.without_primary_index(i),
                None => slots,
            };
            after == LedgerView {
                transaction_status_index: if !metas.contains_key(0) {
                    metas
                } else if !metas[0].frozen && !metas[1].frozen {
                    metas.insert(0, TransactionStatusIndexMeta { frozen: true, ..metas[0] })
                } else if index_to_purge(ledger, to) is Some {
                    metas.insert(0, flipped(metas[0])).insert(1, flipped(metas[1]))
                } else {
                    metas
                },
                ..purged
            }
        }),
{
    let first = seq![WriteOpView::DeleteSlots(from, to)];
    let toggle = toggle_writes(ledger, to);
    let slots = ledger.without(from, to);
    lemma_apply_all_concat(ledger, first, toggle);
    lemma_apply_one(ledger, WriteOpView::DeleteSlots(from, to));
    assert(ledger.apply_all(first) == slots);
    if toggle.len() == 1 {
        lemma_apply_one(slots, toggle[0]);
        assert(toggle =~= seq![toggle[0]]);
    } else if toggle.len() == 2 {
        lemma_two_writes(slots, toggle);
    } else {
        assert(toggle.len() == 0);
        assert(slots.apply_all(toggle) == slots);
    }
    let toggled = first + toggle;
    match index_to_purge(ledger, to) {
        Some(i) => {
            let all = toggled.push(WriteOpView::DeletePrimaryIndex(i));
            assert(all.drop_last() =~= toggled);
        },
        None => {},
    }
}

/// While the indexes are in order a status of any slot can be written.
pub proof fn law_statuses_can_be_written(store: BlockstoreView, slot: Slot)
    requires
        indexes_ordered(store),
    ensures
        can_write_status(store, slot),
        indexes_ordered(store.with_index_raised(slot)),
        store.with_index_raised(slot).active_transaction_status_index
            == store.active_transaction_status_index,
{
    let i = store.active_transaction_status_index;
    let index = store.ledger.transaction_status_index[i];
    lemma_apply_one(
        store.ledger,
        WriteOpView::PutTransactionStatusIndex(
            i,
            TransactionStatusIndexMeta { max_slot: slot, ..index },
        ),
    );
}

/// What the writes of the addresses that a transaction names leave in the ledger.
pub proof fn lemma_address_writes_apply(
    ledger: LedgerView,
    i: u64,
    addresses: Seq<Pubkey>,
    slot: Slot,
    signature: Signature,
    writeable: bool,
)
    ensures
        ({
            let after = ledger.apply_all(address_writes(i, addresses, slot, signature, writeable));
            &&& after == LedgerView { address_signatures: after.address_signatures, ..ledger }
            &&& forall|k: AddressKey| #[trigger]
                after.address_signatures.contains_key(k) <==> ledger.address_signatures.contains_key(
                    k,
                ) || (k.primary_index == i && k.slot == slot && k.signature == signature
                    && addresses.contains(k.address))
            &&& forall|k: AddressKey| #[trigger]
                after.address_signatures.contains_key(k) ==> after.address_signatures[k] == if (
                k.primary_index == i && k.slot == slot && k.signature == signature
                    && addresses.contains(k.address)) {
                    AddressSignatureMeta { writeable }
                } else {
                    ledger.address_signatures[k]
                }
        }),
    decreases addresses.len(),
{
    let ops = address_writes(i, addresses, slot, signature, writeable);
    if addresses.len() > 0 {
        let before = addresses.drop_last();
        lemma_address_writes_apply(ledger, i, before, slot, signature, writeable);
        assert(ops.drop_last() =~= address_writes(i, before, slot, signature, writeable));
        assert forall|a: Pubkey|
            addresses.contains(a) <==> (before.contains(a) || a == addresses.last()) by {
            if addresses.contains(a) {
                let j = choose|j: int| 0 <= j < addresses.len() && addresses[j] == a;
                if j < before.len() {
                    assert(before[j] == a);
                }
            }
            if before.contains(a) {
                let j = choose|j: int| 0 <= j < before.len() && before[j] == a;
                assert(addresses[j] == a);
            }
        }
    } else {
        assert(ops =~= Seq::empty());
    }
}

/// A status that was written is read back: where it was written under index 0, or where index
/// 0 has none for the transaction. The addresses that the transaction names are found under
/// the same index, and nothing else was added there.
pub proof fn law_status_reads_back(
    store: BlockstoreView,
    slot: Slot,
    signature: Signature,
    writable_keys: Seq<Pubkey>,
    readonly_keys: Seq<Pubkey>,
    status: TransactionStatusMetaView,
)
    requires
        indexes_ordered(store),
        store.active_transaction_status_index == 0
            || !store.ledger.transaction_status.contains_key(
            StatusKey { primary_index: 0, signature, slot },
        ),
    ensures
        ({
            let i = store.active_transaction_status_index;
            let after = store.with_index_raised(slot).commit(
                status_writes(i, slot, signature, writable_keys, readonly_keys, status),
            );
            &&& status_at(after.ledger, signature, slot) == Some(status)
            &&& forall|k: AddressKey| #[trigger]
                after.ledger.address_signatures.contains_key(k)
                    <==> store.ledger.address_signatures.contains_key(k) || (k.primary_index == i
                    && k.slot == slot && k.signature == signature && (writable_keys.contains(
                    k.address,
                ) || readonly_keys.contains(k.address)))
            &&& indexes_ordered(after)
        }),
{
    let i = store.active_transaction_status_index;
    law_statuses_can_be_written(store, slot);
    let raised = store.with_index_raised(slot);
    let index = store.ledger.transaction_status_index[i];
    lemma_apply_one(
        store.ledger,
        WriteOpView::PutTransactionStatusIndex(
            i,
            TransactionStatusIndexMeta { max_slot: slot, ..index },
        ),
    );
    let put = WriteOpView::PutTransactionStatus(
        StatusKey { primary_index: i, signature, slot },
        Some(status),
    );
    let first = seq![put];
    let writable = address_writes(i, writable_keys, slot, signature, true);
    let readonly = address_writes(i, readonly_keys, slot, signature, false);
    lemma_apply_all_concat(raised.ledger, first + writable, readonly);
    lemma_apply_all_concat(raised.ledger, first, writable);
    lemma_apply_one(raised.ledger, put);
    let l1 = raised.ledger.apply_all(first);
    lemma_address_writes_apply(l1, i, writable_keys, slot, signature, true);
    let l2 = l1.apply_all(writable);
    lemma_address_writes_apply(l2, i, readonly_keys, slot, signature, false);
}

/// Purging slots keeps the rest of the ledger sound, consistent and marked, and leaves nothing
/// of the purged slots.
pub proof fn law_purge_keeps_ledger(ledger: LedgerView, from: Slot, to: Slot)
    ensures
        ledger_sound(ledger) ==> ledger_sound(ledger.without(from, to)),
        consistent(ledger) ==> consistent(ledger.without(from, to)),
        ends_marked(ledger) ==> ends_marked(ledger.without(from, to)),
        forall|k: u64|
            from <= k < to ==> !(#[trigger] ledger.without(from, to).meta.contains_key(k)),
        forall|k: SlotIndex|
            from <= k.slot < to ==> !(#[trigger] ledger.without(from, to).data_shreds.contains_key(
                k,
            )) && !ledger.without(from, to).code_shreds.contains_key(k),
        forall|k: SlotIndex|
            !(from <= k.slot < to) && #[trigger] ledger.data_shreds.contains_key(k)
                ==> ledger.without(from, to).data_shreds.contains_key(k) && ledger.without(
                from,
                to,
            ).data_shreds[k] == ledger.data_shreds[k],
{
    let after = ledger.without(from, to);
    assert forall|k: SlotIndex| #[trigger] after.data_shreds.contains_key(k) <==> (
    ledger.data_shreds.contains_key(k) && !(from <= k.slot < to)) by {
    }
    assert forall|k: SlotIndex| #[trigger] after.code_shreds.contains_key(k) <==> (
    ledger.code_shreds.contains_key(k) && !(from <= k.slot < to)) by {
    }
    if ledger_sound(ledger) {
        assert forall|k: u64| #[trigger] after.meta.contains_key(k) implies meta_sound(
            after,
            Map::empty(),
            k,
            after.meta[k],
        ) by {
            assert(ledger.meta.contains_key(k));
            assert(meta_sound(ledger, Map::empty(), k, ledger.meta[k]));
            assert(!(from <= k < to));
        }
        assert(erasure_in_bounds(after.erasure_meta)) by {
            assert forall|k: SlotIndex| #[trigger] after.erasure_meta.contains_key(k) implies
                after.erasure_meta[k].in_bounds() by {
                assert(ledger.erasure_meta.contains_key(k));
            }
        }
        assert(code_readable(after)) by {
            assert forall|k: SlotIndex| #[trigger] after.code_shreds.contains_key(k) implies
                parse_shred(after.code_shreds[k]) is Some by {
                assert(ledger.code_shreds.contains_key(k));
            }
        }
    }
    if consistent(ledger) {
        assert forall|k: SlotIndex| #[trigger] after.data_shreds.contains_key(k) implies k.index
            < u32::MAX && after.meta.contains_key(k.slot) by {
            assert(ledger.data_shreds.contains_key(k));
        }
        assert forall|k: SlotIndex| #[trigger] after.data_shreds.contains_key(k) <==> (
        after.index.contains_key(k.slot) && after.index[k.slot].data.contains(k.index)) by {
            assert(ledger.data_shreds.contains_key(k) <==> ledger.index.contains_key(k.slot)
                && ledger.index[k.slot].data.contains(k.index));
        }
        assert forall|k: SlotIndex| #[trigger] after.code_shreds.contains_key(k) <==> (
        after.index.contains_key(k.slot) && after.index[k.slot].coding.contains(k.index)) by {
            assert(ledger.code_shreds.contains_key(k) <==> ledger.index.contains_key(k.slot)
                && ledger.index[k.slot].coding.contains(k.index));
        }
        assert forall|s: u64| #[trigger] after.meta.contains_key(s) implies meta_agrees(
            after.meta[s],
            stored_in(after, s),
        ) by {
            assert(ledger.meta.contains_key(s));
            let p = stored_in(ledger, s);
            let q = stored_in(after, s);
            assert forall|i: u64| #[trigger] p(i) == q(i) by {
                let k = SlotIndex { slot: s, index: i };
                assert(after.data_shreds.contains_key(k) <==> ledger.data_shreds.contains_key(k));
            }
            assert(p =~= q);
        }
    }
    if ends_marked(ledger) {
        assert forall|s: u64, i: u32|
            after.meta.contains_key(s) && after.data_shreds.contains_key(
                SlotIndex { slot: s, index: i as u64 },
            ) implies (#[trigger] after.meta[s].completed_data_indexes.contains(i) <==> ends_run(
            after.data_shreds[SlotIndex { slot: s, index: i as u64 }],
        )) by {
            assert(ledger.meta[s].completed_data_indexes.contains(i) <==> ends_run(
                ledger.data_shreds[SlotIndex { slot: s, index: i as u64 }],
            ));
        }
    }
}

/// The columns that insertion relies on are the same.
pub open spec fn same_shred_columns(a: LedgerView, b: LedgerView) -> bool {
    &&& a.meta == b.meta
    &&& a.index == b.index
    &&& a.erasure_meta == b.erasure_meta
    &&& a.data_shreds == b.data_shreds
    &&& a.code_shreds == b.code_shreds
}

/// Writes to the other columns leave the ledger sound, consistent and marked.
pub proof fn law_other_writes_keep_ledger(a: LedgerView, b: LedgerView)
    requires
        same_shred_columns(a, b),
    ensures
        ledger_sound(a) ==> ledger_sound(b),
        consistent(a) ==> consistent(b),
        ends_marked(a) ==> ends_marked(b),
{
    if ledger_sound(a) {
        assert forall|k: u64| #[trigger] b.meta.contains_key(k) implies meta_sound(
            b,
            Map::empty(),
            k,
            b.meta[k],
        ) by {
            assert(meta_sound(a, Map::empty(), k, a.meta[k]));
        }
        assert(code_readable(b)) by {
            assert forall|k: SlotIndex| #[trigger] b.code_shreds.contains_key(k) implies
                parse_shred(b.code_shreds[k]) is Some by {
                assert(a.code_shreds.contains_key(k));
            }
        }
    }
    if consistent(a) {
        assert forall|s: u64| #[trigger] b.meta.contains_key(s) implies meta_agrees(
            b.meta[s],
            stored_in(b, s),
        ) by {
            assert(stored_in(a, s) =~= stored_in(b, s));
        }
        assert forall|k: SlotIndex| #[trigger] b.data_shreds.contains_key(k) <==> (
        b.index.contains_key(k.slot) && b.index[k.slot].data.contains(k.index)) by {
            assert(a.data_shreds.contains_key(k) <==> a.index.contains_key(k.slot)
                && a.index[k.slot].data.contains(k.index));
        }
        assert forall|k: SlotIndex| #[trigger] b.code_shreds.contains_key(k) <==> (
        b.index.contains_key(k.slot) && b.index[k.slot].coding.contains(k.index)) by {
            assert(a.code_shreds.contains_key(k) <==> a.index.contains_key(k.slot)
                && a.index[k.slot].coding.contains(k.index));
        }
    }
}

/// Clearing an unconfirmed slot leaves nothing of it but its children, and keeps the ledger
/// sound, consistent and marked.
pub proof fn law_clearing_keeps_ledger(store: BlockstoreView, slot: Slot)
    requires
        store.ledger.meta.contains_key(slot),
        slot < u64::MAX,
        indexes_paired(store.ledger),
    ensures
        ({
            let after = store.unconfirmed_cleared(slot).ledger;
            &&& ledger_sound(store.ledger) ==> ledger_sound(after)
            &&& consistent(store.ledger) ==> consistent(after)
            &&& ends_marked(store.ledger) ==> ends_marked(after)
            &&& after.meta.contains_key(slot)
            &&& after.meta[slot] == store.ledger.meta[slot].cleared()
            &&& !after.dead_slots.contains_key(slot)
            &&& forall|k: SlotIndex|
                k.slot == slot ==> !(#[trigger] after.data_shreds.contains_key(k))
            &&& forall|s: u64|
                s != slot && #[trigger] store.ledger.meta.contains_key(s)
                    ==> after.meta.contains_key(s) && after.meta[s] == store.ledger.meta[s]
        }),
{
    let l = store.ledger;
    let to = (slot + 1) as u64;
    let purged = store.purged(slot, to, PurgeType::PrimaryIndex);
    let base = l.without(slot, to);
    lemma_purge_apply(l, slot, to);
    law_purge_keeps_ledger(l, slot, to);
    assert(same_shred_columns(base, purged.ledger));
    law_other_writes_keep_ledger(base, purged.ledger);
    let put = WriteOpView::PutMeta(slot, l.meta[slot].cleared());
    lemma_apply_one(purged.ledger, put);
    let after = store.unconfirmed_cleared(slot).ledger;
    assert(after == purged.ledger.apply(put));
    assert forall|k: SlotIndex| k.slot == slot implies !(
    #[trigger] after.data_shreds.contains_key(k)) by {
        assert(!base.data_shreds.contains_key(k));
    }
    if ledger_sound(l) {
        let b = purged.ledger;
        assert forall|k: u64| #[trigger] after.meta.contains_key(k) implies meta_sound(
            after,
            Map::empty(),
            k,
            after.meta[k],
        ) by {
            if k == slot {
                assert(meta_sound(l, Map::empty(), k, l.meta[k]));
            } else {
                assert(b.meta.contains_key(k));
                assert(meta_sound(b, Map::empty(), k, b.meta[k]));
            }
        }
        assert(code_readable(after)) by {
            assert forall|k: SlotIndex| #[trigger] after.code_shreds.contains_key(k) implies
                parse_shred(after.code_shreds[k]) is Some by {
                assert(b.code_shreds.contains_key(k));
            }
        }
    }
    if consistent(l) {
        let b = purged.ledger;
        assert forall|k: SlotIndex| #[trigger] after.data_shreds.contains_key(k) implies k.index
            < u32::MAX && after.meta.contains_key(k.slot) by {
            assert(b.data_shreds.contains_key(k));
        }
        assert forall|k: SlotIndex| #[trigger] after.data_shreds.contains_key(k) <==> (
        after.index.contains_key(k.slot) && after.index[k.slot].data.contains(k.index)) by {
            assert(b.data_shreds.contains_key(k) <==> b.index.contains_key(k.slot)
                && b.index[k.slot].data.contains(k.index));
        }
        assert forall|k: SlotIndex| #[trigger] after.code_shreds.contains_key(k) <==> (
        after.index.contains_key(k.slot) && after.index[k.slot].coding.contains(k.index)) by {
            assert(b.code_shreds.contains_key(k) <==> b.index.contains_key(k.slot)
                && b.index[k.slot].coding.contains(k.index));
        }
        assert forall|s: u64| #[trigger] after.meta.contains_key(s) implies meta_agrees(
            after.meta[s],
            stored_in(after, s),
        ) by {
            let q = stored_in(after, s);
            assert(q =~= stored_in(b, s));
            if s == slot {
                assert forall|i: u64| !(#[trigger] q(i)) by {
                    assert(!after.data_shreds.contains_key(SlotIndex { slot: s, index: i }));
                }
            } else {
                assert(b.meta.contains_key(s));
            }
        }
    }
    if ends_marked(l) {
        let b = purged.ledger;
        assert forall|s: u64, i: u32|
            after.meta.contains_key(s) && after.data_shreds.contains_key(
                SlotIndex { slot: s, index: i as u64 },
            ) implies (#[trigger] after.meta[s].completed_data_indexes.contains(i) <==> ends_run(
            after.data_shreds[SlotIndex { slot: s, index: i as u64 }],
        )) by {
            assert(s != slot);
            assert(b.meta[s].completed_data_indexes.contains(i) <==> ends_run(
                b.data_shreds[SlotIndex { slot: s, index: i as u64 }],
            ));
        }
    }
}


/// Nothing but already known shreds has come: the working sets are copies of the ledger, and
/// there is nothing to write.
spec fn nothing_new(store: BlockstoreView, p: Progress) -> bool {
    let st = p.state;
    &&& p.store == store
    &&& st.write_batch == Seq::<WriteOpView>::empty()
    &&& st.erasure_metas == Map::<SlotIndex, ErasureMeta>::empty()
    &&& st.completed_data_sets == Seq::<CompletedDataSetInfo>::empty()
    &&& st.inserted_indices == Seq::<usize>::empty()
    &&& st.indexes.dom().finite()
    &&& forall|k: u64| #[trigger]
        st.indexes.contains_key(k) ==> st.indexes[k] == index_entry(
            store.ledger,
            Map::empty(),
            k,
        )
    &&& forall|k: u64| #[trigger]
        st.slot_metas.contains_key(k) ==> !st.slot_metas[k].did_insert_occur
}

proof fn lemma_known_shreds(
    store: BlockstoreView,
    shreds: Seq<ShredView>,
    is_repaired: Seq<bool>,
    now: u64,
    start: InsertionView,
)
    requires
        consistent(store.ledger),
        start == InsertionView::start(start.metrics),
        forall|i: int|
            0 <= i < shreds.len() ==> (#[trigger] shreds[i]).is_data()
                && store.ledger.data_shreds.contains_key(shred_key(shreds[i])),
    ensures
        nothing_new(
            store,
            batch_steps(
                Progress { store, state: start },
                shreds,
                is_repaired,
                false,
                now,
            ),
        ),
    decreases shreds.len(),
{
    let p0 = Progress { store, state: start };
    if shreds.len() > 0 {
        let before = shreds.drop_last();
        let n = shreds.len() - 1;
        assert forall|i: int| 0 <= i < before.len() implies (#[trigger] before[i]).is_data()
            && store.ledger.data_shreds.contains_key(shred_key(before[i])) by {
            assert(before[i] == shreds[i]);
        }
        lemma_known_shreds(store, before, is_repaired, now, start);
        let p = batch_steps(p0, before, is_repaired, false, now);
        let shred = shreds[n];
        let slot = shred.slot();
        let k = shred_key(shred);
        assert(shred.is_data() && store.ledger.data_shreds.contains_key(k));
        assert(store.ledger.index.contains_key(k.slot)
            && store.ledger.index[k.slot].data.contains(k.index));
        let ie = index_entry(store.ledger, p.state.indexes, slot);
        assert(ie == index_entry(store.ledger, Map::empty(), slot));
        assert(ie.index.data.contains(shred.index() as u64));
        let q = batch_steps(p0, shreds, is_repaired, false, now);
        assert(q.state.indexes == p.state.indexes.insert(slot, ie));
        assert(q.state.indexes.dom() =~= p.state.indexes.dom().insert(slot));
    } else {
        assert(start.indexes.dom() =~= Set::empty());
    }
}

proof fn lemma_no_index_writes(
    ledger: LedgerView,
    indexes: Map<u64, IndexEntryView>,
    keys: Seq<u64>,
)
    requires
        forall|k: u64| #[trigger]
            indexes.contains_key(k) ==> indexes[k] == index_entry(ledger, Map::empty(), k),
        forall|i: int| 0 <= i < keys.len() ==> indexes.contains_key(#[trigger] keys[i]),
    ensures
        index_writes(indexes, keys) == Seq::<WriteOpView>::empty(),
    decreases keys.len(),
{
    if keys.len() > 0 {
        let before = keys.drop_last();
        assert forall|i: int| 0 <= i < before.len() implies indexes.contains_key(
            #[trigger] before[i],
        ) by {
            assert(before[i] == keys[i]);
        }
        lemma_no_index_writes(ledger, indexes, before);
        assert(indexes.contains_key(keys[keys.len() - 1]));
    }
}

/// Inserting data shreds that are there already changes nothing in the ledger, completes no run
/// of entries and inserts no shred.
pub proof fn law_known_shreds_change_nothing(
    store: BlockstoreView,
    shreds: Seq<ShredView>,
    is_repaired: Seq<bool>,
    now: u64,
    metrics: BlockstoreInsertionMetrics,
    has_completed_slots_senders: bool,
)
    requires
        consistent(store.ledger),
        forall|i: int|
            0 <= i < shreds.len() ==> (#[trigger] shreds[i]).is_data()
                && store.ledger.data_shreds.contains_key(shred_key(shreds[i])),
    ensures
        ({
            let (after, outcome) = batch_inserted(
                store,
                shreds,
                is_repaired,
                false,
                now,
                metrics,
                None,
                has_completed_slots_senders,
            );
            &&& after.ledger == store.ledger
            &&& outcome.completed_data_sets == Seq::<CompletedDataSetInfo>::empty()
            &&& outcome.inserted_indices == Seq::<usize>::empty()
            &&& outcome.newly_completed_slots == Seq::<u64>::empty()
            &&& !outcome.should_signal
        }),
{
    let start = batch_start(metrics, shreds.len() as usize);
    lemma_known_shreds(store, shreds, is_repaired, now, start);
    let p = batch_received(store, shreds, is_repaired, false, now, metrics);
    let st = p.state;
    let kept = inserted_into(st.slot_metas);
    assert(kept =~= Map::<u64, MetaEntryView>::empty());
    lemma_ordered_keys(Seq::<u64>::empty(), Map::<u64, MetaEntryView>::empty());
    lemma_ordered_keys(Seq::<u64>::empty(), Map::<u64, SlotMetaView>::empty());
    lemma_ordered_keys(Seq::<SlotIndex>::empty(), Map::<SlotIndex, ErasureMeta>::empty());
    let c = chained_batch(store.ledger, st.slot_metas);
    assert(c == ChainView {
        working: Map::<u64, MetaEntryView>::empty(),
        chained: Map::<u64, SlotMetaView>::empty(),
    });
    lemma_finite_orders(st.indexes);
    let keys = ordered_keys(st.indexes);
    assert forall|i: int| 0 <= i < keys.len() implies st.indexes.contains_key(
        #[trigger] keys[i],
    ) by {
        assert(keys.contains(keys[i]));
    }
    lemma_no_index_writes(store.ledger, st.indexes, keys);
    let writes = batch_writes(store.ledger, st);
    assert(writes =~= Seq::<WriteOpView>::empty());
    assert(store.ledger.apply_all(Seq::<WriteOpView>::empty()) == store.ledger);
}

} // verus!
