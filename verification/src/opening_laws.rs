//! What a store that is opened on a ledger starts with, and which slots it refuses.

use vstd::prelude::*;
use crate::blockstore::{lemma_apply_one, BlockstoreView};
use crate::column::{greatest, is_greatest, keys_at_or_above, lemma_least_member};
use crate::ledger::{lemma_apply_all_concat, LedgerView};
use crate::opening::opened;
use crate::slot_entries::cleaned_up;
use crate::transactions::index_setup_writes;
use crate::types::{AddressKey, Slot, StatusKey};

verus! {

proof fn lemma_greatest_above(set: Set<u64>, k: u64)
    requires
        set.contains(k),
    ensures
        exists|j: u64| is_greatest(set, j),
    decreases u64::MAX - k,
{
    if exists|j: u64| #[trigger] set.contains(j) && j > k {
        let j = choose|j: u64| #[trigger] set.contains(j) && j > k;
        lemma_greatest_above(set, j);
    } else {
        assert(is_greatest(set, k));
    }
}

/// What the writes that set up the two indexes leave.
proof fn lemma_setup(ledger: LedgerView)
    ensures
        ({
            let after = ledger.apply_all(index_setup_writes());
            &&& after == LedgerView {
                transaction_status_index: after.transaction_status_index,
                transaction_status: after.transaction_status,
                address_signatures: after.address_signatures,
                ..ledger
            }
            &&& forall|i: u64| #[trigger]
                after.transaction_status_index.contains_key(i)
                    <==> ledger.transaction_status_index.contains_key(i) || i == 0 || i == 1
            &&& !after.transaction_status_index[0].frozen
            &&& !after.transaction_status_index[1].frozen
            &&& after.transaction_status_index[0].max_slot == 0
            &&& after.transaction_status_index[1].max_slot == 0
            &&& forall|k: StatusKey|
                k.primary_index <= 1 ==> (#[trigger] after.transaction_status.contains_key(k)
                    <==> ledger.transaction_status.contains_key(k))
            &&& forall|k: AddressKey|
                k.primary_index <= 1 ==> (#[trigger] after.address_signatures.contains_key(k)
                    <==> ledger.address_signatures.contains_key(k))
        }),
{
    let ops = index_setup_writes();
    let l1 = ledger.apply_all(ops.take(1));
    let l2 = ledger.apply_all(ops.take(2));
    let l3 = ledger.apply_all(ops.take(3));
    assert(ops.take(1) =~= seq![ops[0]]);
    assert(ops.take(2) =~= ops.take(1) + seq![ops[1]]);
    assert(ops.take(3) =~= ops.take(2) + seq![ops[2]]);
    assert(ops =~= ops.take(3) + seq![ops[3]]);
    lemma_apply_one(ledger, ops[0]);
    lemma_apply_all_concat(ledger, ops.take(1), seq![ops[1]]);
    lemma_apply_one(l1, ops[1]);
    lemma_apply_all_concat(ledger, ops.take(2), seq![ops[2]]);
    lemma_apply_one(l2, ops[2]);
    lemma_apply_all_concat(ledger, ops.take(3), seq![ops[3]]);
    lemma_apply_one(l3, ops[3]);
}

/// A store that is opened has the highest root of its ledger as its last root, or 0, and has
/// purged nothing. Where the indexes of the transaction statuses are recorded it changes nothing,
/// and goes on under the second index where the first is frozen. Else it sets up two fresh
/// indexes, goes on under the first, and adds nothing under either.
pub proof fn law_opened_store(ledger: LedgerView, now: u64)
    ensures
        ({
            let store = opened(ledger, now);
            let indexes = ledger.transaction_status_index;
            &&& forall|s: u64| #[trigger] ledger.roots.contains_key(s) ==> s <= store.last_root
            &&& store.last_root == 0 || ledger.roots.contains_key(store.last_root)
            &&& store.lowest_cleanup_slot == 0
            &&& indexes.contains_key(0) ==> {
                &&& store.ledger == ledger
                &&& store.journal.len() == 0
                &&& store.active_transaction_status_index == if indexes[0].frozen {
                    1u64
                } else {
                    0u64
                }
            }
            &&& (forall|i: u64| !#[trigger] indexes.contains_key(i)) ==> {
                let after = store.ledger;
                &&& store.active_transaction_status_index == 0
                &&& store.journal.len() == 1
                &&& after == LedgerView {
                    transaction_status_index: after.transaction_status_index,
                    transaction_status: after.transaction_status,
                    address_signatures: after.address_signatures,
                    ..ledger
                }
                &&& forall|i: u64| #[trigger]
                    after.transaction_status_index.contains_key(i) ==> i <= 1
                &&& forall|i: u64|
                    i <= 1 ==> #[trigger] after.transaction_status_index.contains_key(i)
                        && !after.transaction_status_index[i].frozen
                        && after.transaction_status_index[i].max_slot == 0
                &&& forall|k: StatusKey|
                    k.primary_index <= 1 ==> (#[trigger] after.transaction_status.contains_key(k)
                        <==> ledger.transaction_status.contains_key(k))
                &&& forall|k: AddressKey|
                    k.primary_index <= 1 ==> (#[trigger] after.address_signatures.contains_key(k)
                        <==> ledger.address_signatures.contains_key(k))
            }
        }),
{
    let roots = ledger.roots.dom();
    let all = keys_at_or_above(ledger.transaction_status_index, 0);
    if exists|s: u64| roots.contains(s) {
        let s = choose|s: u64| roots.contains(s);
        lemma_greatest_above(roots, s);
        assert(is_greatest(roots, greatest(roots)->0));
    }
    assert forall|s: u64| #[trigger] ledger.roots.contains_key(s) implies s <= opened(
        ledger,
        now,
    ).last_root by {
        assert(roots.contains(s));
    }
    if ledger.transaction_status_index.contains_key(0) {
        assert(all.contains(0));
        lemma_least_member(all);
    }
    lemma_setup(ledger);
}

/// A slot is refused as purged where a purge has reached it, the lowest cleanup slot itself
/// included, and never before anything was purged.
pub proof fn law_purged_slots_are_refused(store: BlockstoreView, slot: Slot)
    ensures
        cleaned_up(store, slot) <==> 0 < store.lowest_cleanup_slot && slot
            <= store.lowest_cleanup_slot,
{
}

} // verus!
