//! What a purge drops and what it keeps, and what a status that is written leaves behind.

use vstd::prelude::*;
use crate::blockstore::{lemma_apply_one, BlockstoreView};
use crate::column::SlotIndex;
use crate::laws::{indexes_ordered, lemma_address_writes_apply, lemma_purge_apply};
use crate::ledger::{lemma_apply_all_concat, LedgerView, WriteOpView};
use crate::meta::TransactionStatusIndexMeta;
use crate::purge::{purge_writes, PurgeType};
use crate::records::TransactionStatusMetaView;
use crate::transactions::{address_writes, indexes_paired, status_writes};
use crate::types::{AddressKey, Pubkey, Signature, Slot, StatusKey};

verus! {

/// A column by slots has lost exactly the slots from `from` up to `to`, excluded.
pub open spec fn slots_dropped<W>(
    before: Map<u64, W>,
    after: Map<u64, W>,
    from: Slot,
    to: Slot,
) -> bool {
    &&& forall|s: u64| #[trigger]
        after.contains_key(s) <==> before.contains_key(s) && !(from <= s < to)
    &&& forall|s: u64| #[trigger] after.contains_key(s) ==> after[s] == before[s]
}

/// A column by slots and indexes has lost exactly the slots from `from` up to `to`, excluded.
pub open spec fn shreds_dropped<W>(
    before: Map<SlotIndex, W>,
    after: Map<SlotIndex, W>,
    from: Slot,
    to: Slot,
) -> bool {
    &&& forall|k: SlotIndex| #[trigger]
        after.contains_key(k) <==> before.contains_key(k) && !(from <= k.slot < to)
    &&& forall|k: SlotIndex| #[trigger] after.contains_key(k) ==> after[k] == before[k]
}

/// What belongs to the slots from `from` up to `to`, excluded, is gone, and nothing else is,
/// the transaction columns aside.
pub open spec fn only_slots_dropped(
    before: LedgerView,
    after: LedgerView,
    from: Slot,
    to: Slot,
) -> bool {
    &&& slots_dropped(before.meta, after.meta, from, to)
    &&& slots_dropped(before.dead_slots, after.dead_slots, from, to)
    &&& slots_dropped(before.duplicate_slots, after.duplicate_slots, from, to)
    &&& slots_dropped(before.orphans, after.orphans, from, to)
    &&& slots_dropped(before.index, after.index, from, to)
    &&& slots_dropped(before.rewards, after.rewards, from, to)
    &&& slots_dropped(before.blocktime, after.blocktime, from, to)
    &&& slots_dropped(before.perf_samples, after.perf_samples, from, to)
    &&& slots_dropped(before.block_height, after.block_height, from, to)
    &&& slots_dropped(before.bank_hash, after.bank_hash, from, to)
    &&& slots_dropped(before.roots, after.roots, from, to)
    &&& shreds_dropped(before.data_shreds, after.data_shreds, from, to)
    &&& shreds_dropped(before.code_shreds, after.code_shreds, from, to)
    &&& shreds_dropped(before.erasure_meta, after.erasure_meta, from, to)
    &&& after.transaction_memos == before.transaction_memos
    &&& after.program_costs == before.program_costs
}

/// The statuses and the address signatures have lost exactly those under a primary index.
pub open spec fn only_index_dropped(before: LedgerView, after: LedgerView, i: u64) -> bool {
    &&& forall|k: StatusKey| #[trigger]
        after.transaction_status.contains_key(k) <==> before.transaction_status.contains_key(k)
            && k.primary_index != i
    &&& forall|k: StatusKey| #[trigger]
        after.transaction_status.contains_key(k) ==> after.transaction_status[k]
            == before.transaction_status[k]
    &&& forall|k: AddressKey| #[trigger]
        after.address_signatures.contains_key(k) <==> before.address_signatures.contains_key(k)
            && k.primary_index != i
    &&& forall|k: AddressKey| #[trigger]
        after.address_signatures.contains_key(k) ==> after.address_signatures[k]
            == before.address_signatures[k]
}

proof fn lemma_without(ledger: LedgerView, from: Slot, to: Slot)
    ensures
        only_slots_dropped(ledger, ledger.without(from, to), from, to),
{
    let after = ledger.without(from, to);
    assert(slots_dropped(ledger.meta, after.meta, from, to));
    assert(slots_dropped(ledger.dead_slots, after.dead_slots, from, to));
    assert(slots_dropped(ledger.duplicate_slots, after.duplicate_slots, from, to));
    assert(slots_dropped(ledger.orphans, after.orphans, from, to));
    assert(slots_dropped(ledger.index, after.index, from, to));
    assert(shreds_dropped(ledger.data_shreds, after.data_shreds, from, to));
    assert(shreds_dropped(ledger.code_shreds, after.code_shreds, from, to));
    assert(shreds_dropped(ledger.erasure_meta, after.erasure_meta, from, to));
}

/// A purge drops what belongs to its slots from every column by slots, and nothing else from
/// them. Memos and program costs belong to no slot and stay. A purge that is left to the
/// compaction filter does not touch the other transaction columns.
pub proof fn law_purge_drops_its_slots(
    store: BlockstoreView,
    from: Slot,
    to: Slot,
    purge_type: PurgeType,
)
    requires
        indexes_paired(store.ledger),
    ensures
        only_slots_dropped(
            store.ledger,
            store.purged(from, to, purge_type).ledger,
            from,
            to,
        ),
        purge_type != PurgeType::PrimaryIndex ==> {
            let after = store.purged(from, to, purge_type);
            &&& after.ledger.transaction_status == store.ledger.transaction_status
            &&& after.ledger.address_signatures == store.ledger.address_signatures
            &&& after.ledger.transaction_status_index == store.ledger.transaction_status_index
            &&& after.active_transaction_status_index == store.active_transaction_status_index
        },
{
    let after = store.purged(from, to, purge_type).ledger;
    let slots = store.ledger.without(from, to);
    lemma_without(store.ledger, from, to);
    if purge_type == PurgeType::PrimaryIndex {
        lemma_purge_apply(store.ledger, from, to);
    } else {
        lemma_apply_one(store.ledger, WriteOpView::DeleteSlots(from, to));
        assert(purge_writes(store.ledger, from, to, purge_type) =~= seq![
            WriteOpView::DeleteSlots(from, to),
        ]);
        assert(after == slots);
    }
    assert(after.meta == slots.meta && after.roots == slots.roots);
}

/// The first purge by primary index freezes the index that was written to and drops no status.
/// A later one drops all that is under the frozen index, and nothing else, once every slot that
/// it has statuses of is purged; the two indexes then change places, and the emptied one starts
/// over. Until then a purge drops no status and leaves the indexes as they are.
pub proof fn law_purged_transactions(store: BlockstoreView, from: Slot, to: Slot)
    requires
        indexes_ordered(store),
    ensures
        ({
            let after = store.purged(from, to, PurgeType::PrimaryIndex);
            let metas = store.ledger.transaction_status_index;
            let metas_after = after.ledger.transaction_status_index;
            let active = store.active_transaction_status_index;
            let other = if active == 0 {
                1u64
            } else {
                0u64
            };
            let statuses_kept = after.ledger.transaction_status == store.ledger.transaction_status
                && after.ledger.address_signatures == store.ledger.address_signatures;
            if !metas[other].frozen {
                &&& statuses_kept
                &&& after.active_transaction_status_index == other
                &&& metas_after[active].frozen
                &&& metas_after[active].max_slot == metas[active].max_slot
                &&& metas_after[other] == metas[other]
            } else if to > metas[other].max_slot {
                &&& only_index_dropped(store.ledger, after.ledger, other)
                &&& after.active_transaction_status_index == other
                &&& metas_after[active].frozen
                &&& metas_after[active].max_slot == metas[active].max_slot
                &&& !metas_after[other].frozen
                &&& metas_after[other].max_slot == 0
            } else {
                &&& statuses_kept
                &&& after.active_transaction_status_index == active
                &&& metas_after == metas
            }
        }),
{
    let after = store.purged(from, to, PurgeType::PrimaryIndex).ledger;
    lemma_purge_apply(store.ledger, from, to);
    let metas = store.ledger.transaction_status_index;
    let active = store.active_transaction_status_index;
    let other = if active == 0 {
        1u64
    } else {
        0u64
    };
    if metas[other].frozen && to > metas[other].max_slot {
        assert(only_index_dropped(store.ledger, after, other));
    }
}

/// A slot that is cleared keeps the slots that build on it and nothing else: no shred, no parent,
/// no mark. All other slots keep what they had.
pub proof fn law_cleared_slot_keeps_its_children(store: BlockstoreView, slot: Slot)
    requires
        store.ledger.meta.contains_key(slot),
        slot < u64::MAX,
        indexes_paired(store.ledger),
    ensures
        ({
            let before = store.ledger;
            let after = store.unconfirmed_cleared(slot).ledger;
            let meta = after.meta[slot];
            &&& after.meta.contains_key(slot)
            &&& meta.slot == before.meta[slot].slot
            &&& meta.next_slots == before.meta[slot].next_slots
            &&& meta.consumed == 0
            &&& meta.received == 0
            &&& meta.last_index is None
            &&& meta.parent_slot is None
            &&& meta.is_connected == (meta.slot == 0)
            &&& meta.completed_data_indexes == Set::<u32>::empty()
            &&& exists|middle: LedgerView|
                {
                    &&& #[trigger] only_slots_dropped(before, middle, slot, (slot + 1) as u64)
                    &&& after == LedgerView { meta: middle.meta.insert(slot, meta), ..middle }
                }
        }),
{
    let to = (slot + 1) as u64;
    let purged = store.purged(slot, to, PurgeType::PrimaryIndex);
    law_purge_drops_its_slots(store, slot, to, PurgeType::PrimaryIndex);
    lemma_apply_one(
        purged.ledger,
        WriteOpView::PutMeta(slot, store.ledger.meta[slot].cleared()),
    );
    assert(only_slots_dropped(store.ledger, purged.ledger, slot, to));
}

/// Writing a status adds it under the active index, notes whether each address that the
/// transaction names was written or only read, and raises the highest slot of the index to the
/// slot of the status. Everything else stays.
pub proof fn law_what_a_written_status_leaves(
    store: BlockstoreView,
    slot: Slot,
    signature: Signature,
    writable_keys: Seq<Pubkey>,
    readonly_keys: Seq<Pubkey>,
    status: TransactionStatusMetaView,
)
    requires
        indexes_ordered(store),
    ensures
        ({
            let i = store.active_transaction_status_index;
            let before = store.ledger;
            let after = store.with_index_raised(slot).commit(
                status_writes(i, slot, signature, writable_keys, readonly_keys, status),
            );
            let own = StatusKey { primary_index: i, signature, slot };
            let index = before.transaction_status_index[i];
            &&& after.active_transaction_status_index == i
            &&& after.ledger.transaction_status == before.transaction_status.insert(
                own,
                Some(status),
            )
            &&& after.ledger.transaction_status_index == before.transaction_status_index.insert(
                i,
                TransactionStatusIndexMeta {
                    max_slot: if slot > index.max_slot {
                        slot
                    } else {
                        index.max_slot
                    },
                    frozen: index.frozen,
                },
            )
            &&& forall|k: AddressKey| #[trigger]
                after.ledger.address_signatures.contains_key(k) && k.primary_index == i && k.slot
                    == slot && k.signature == signature ==> {
                    &&& readonly_keys.contains(k.address)
                        ==> !after.ledger.address_signatures[k].writeable
                    &&& writable_keys.contains(k.address) && !readonly_keys.contains(k.address)
                        ==> after.ledger.address_signatures[k].writeable
                }
            &&& forall|k: AddressKey| #[trigger]
                before.address_signatures.contains_key(k) && !(k.primary_index == i && k.slot
                    == slot && k.signature == signature)
                    ==> after.ledger.address_signatures[k] == before.address_signatures[k]
            &&& after.ledger == LedgerView {
                transaction_status: after.ledger.transaction_status,
                transaction_status_index: after.ledger.transaction_status_index,
                address_signatures: after.ledger.address_signatures,
                ..before
            }
        }),
{
    let i = store.active_transaction_status_index;
    let raised = store.with_index_raised(slot);
    let index = store.ledger.transaction_status_index[i];
    lemma_apply_one(
        store.ledger,
        WriteOpView::PutTransactionStatusIndex(
            i,
            TransactionStatusIndexMeta { max_slot: slot, ..index },
        ),
    );
    let put = WriteOpView::PutTransactionStatus(
        StatusKey { primary_index: i, signature, slot },
        Some(status),
    );
    let first = seq![put];
    let writable = address_writes(i, writable_keys, slot, signature, true);
    let readonly = address_writes(i, readonly_keys, slot, signature, false);
    lemma_apply_all_concat(raised.ledger, first + writable, readonly);
    lemma_apply_all_concat(raised.ledger, first, writable);
    lemma_apply_one(raised.ledger, put);
    let l1 = raised.ledger.apply_all(first);
    lemma_address_writes_apply(l1, i, writable_keys, slot, signature, true);
    let l2 = l1.apply_all(writable);
    lemma_address_writes_apply(l2, i, readonly_keys, slot, signature, false);
    let after = l2.apply_all(readonly);
    assert(after.transaction_status_index =~= store.ledger.transaction_status_index.insert(
        i,
        TransactionStatusIndexMeta {
            max_slot: if slot > index.max_slot {
                slot
            } else {
                index.max_slot
            },
            frozen: index.frozen,
        },
    ));
    assert forall|k: AddressKey| #[trigger]
        store.ledger.address_signatures.contains_key(k) implies l2.address_signatures.contains_key(
        k,
    ) && after.address_signatures.contains_key(k) by {
    }
}

} // verus!
