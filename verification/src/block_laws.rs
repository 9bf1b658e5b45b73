//! A block holds what its slot holds, and a transaction is found by its signature.

use vstd::prelude::*;
use crate::blocks::{
    complete_block, rooted_block, transaction_in_slot, transaction_with, transaction_with_status,
    transactions_of, with_statuses,
};
use crate::blockstore::BlockstoreView;
use crate::ledger::LedgerView;
use crate::records::{
    BlockstoreError, ConfirmedBlockView, ConfirmedTransactionView, EntryView,
    TransactionStatusMetaView, TransactionView, VersionedTransactionView,
};
use crate::slot_entries::slot_entries_info;
use crate::transactions::{
    first_status_slot, has_status, is_first_status, lemma_first_status_found, transaction_status,
};
use crate::types::{Blockhash, Signature, Slot, StatusKey};

verus! {

/// How many transactions the first `n` of some entries hold.
pub open spec fn transactions_before(entries: Seq<EntryView>, n: int) -> nat
    decreases n,
{
    if n <= 0 {
        0
    } else {
        transactions_before(entries, n - 1) + entries[n - 1].transactions.len()
    }
}

/// A transaction stands at a place.
pub open spec fn stands_at(
    transactions: Seq<VersionedTransactionView>,
    place: int,
    t: VersionedTransactionView,
) -> bool {
    0 <= place < transactions.len() && transactions[place] == t
}

/// The transactions of the entries up to an entry do not depend on what follows it.
proof fn lemma_transactions_before(entries: Seq<EntryView>, more: Seq<EntryView>, n: int)
    requires
        0 <= n <= entries.len() <= more.len(),
        forall|i: int| 0 <= i < n ==> entries[i] == more[i],
    ensures
        transactions_before(entries, n) == transactions_before(more, n),
    decreases n,
{
    if n > 0 {
        lemma_transactions_before(entries, more, n - 1);
    }
}

/// Every transaction of every entry is among those of the entries, in its place: after all
/// transactions of the entries before its own, and after those before it in its own. There are
/// no others.
pub proof fn law_every_transaction_is_collected(entries: Seq<EntryView>)
    ensures
        transactions_of(entries).len() == transactions_before(entries, entries.len() as int),
        forall|i: int, j: int|
            0 <= i < entries.len() && 0 <= j < entries[i].transactions.len() ==> stands_at(
                transactions_of(entries),
                transactions_before(entries, i) + j,
                #[trigger] entries[i].transactions[j],
            ),
    decreases entries.len(),
{
    if entries.len() > 0 {
        let earlier = entries.drop_last();
        let last = entries.len() - 1;
        law_every_transaction_is_collected(earlier);
        lemma_transactions_before(earlier, entries, last);
        assert forall|i: int, j: int|
            0 <= i < entries.len() && 0 <= j < entries[i].transactions.len() implies stands_at(
            transactions_of(entries),
            transactions_before(entries, i) + j,
            #[trigger] entries[i].transactions[j],
        ) by {
            if i < last {
                lemma_transactions_before(earlier, entries, i);
                assert(earlier[i].transactions[j] == entries[i].transactions[j]);
            }
        }
    }
}

/// Every place among the transactions of some entries is that of one of an entry.
proof fn lemma_place_of_transaction(entries: Seq<EntryView>, place: int) -> (found: (int, int))
    requires
        0 <= place < transactions_of(entries).len(),
    ensures
        0 <= found.0 < entries.len(),
        0 <= found.1 < entries[found.0].transactions.len(),
        place == transactions_before(entries, found.0) + found.1,
        transactions_of(entries)[place] == entries[found.0].transactions[found.1],
    decreases entries.len(),
{
    law_every_transaction_is_collected(entries);
    let earlier = entries.drop_last();
    let last = entries.len() - 1;
    law_every_transaction_is_collected(earlier);
    lemma_transactions_before(earlier, entries, last);
    if place < transactions_before(entries, last) {
        let found = lemma_place_of_transaction(earlier, place);
        lemma_transactions_before(earlier, entries, found.0);
        found
    } else {
        (last, place - transactions_before(entries, last))
    }
}

/// Every transaction of every entry is of the unversioned format.
pub open spec fn entries_legacy(entries: Seq<EntryView>) -> bool {
    forall|i: int, j: int|
        0 <= i < entries.len() && 0 <= j < entries[i].transactions.len() ==> (
        #[trigger] entries[i].transactions[j]).is_legacy
}

/// A transaction is given out as it was sent.
pub open spec fn same_transaction(t: VersionedTransactionView, given: TransactionView) -> bool {
    &&& given.signature == t.signature
    &&& given.other_signatures == t.other_signatures
    &&& given.message == t.message
}

/// The status of a transaction in a slot that is given out is the one that is kept for both:
/// under index 0, or, where there is none, under index 1.
pub open spec fn same_status(
    ledger: LedgerView,
    signature: Signature,
    slot: Slot,
    given: Option<TransactionStatusMetaView>,
) -> bool {
    let key0 = StatusKey { primary_index: 0, signature, slot };
    let key1 = StatusKey { primary_index: 1, signature, slot };
    let kept = ledger.transaction_status;
    &&& kept.contains_key(key0) ==> given == kept[key0]
    &&& !kept.contains_key(key0) && kept.contains_key(key1) ==> given == kept[key1]
    &&& !kept.contains_key(key0) && !kept.contains_key(key1) ==> given is None
}

/// Transactions are given their statuses one by one: there are as many as before, each as it was
/// and with the status that is kept for it in the slot. They are refused only where one is of a
/// versioned format.
pub proof fn law_statuses_are_added(
    ledger: LedgerView,
    slot: Slot,
    transactions: Seq<VersionedTransactionView>,
)
    ensures
        match with_statuses(ledger, slot, transactions) {
            Ok(found) => {
                &&& found.len() == transactions.len()
                &&& forall|i: int|
                    0 <= i < transactions.len() ==> {
                        &&& transactions[i].is_legacy
                        &&& same_transaction(transactions[i], (#[trigger] found[i]).transaction)
                        &&& same_status(ledger, transactions[i].signature, slot, found[i].meta)
                    }
            },
            Err(e) => e == BlockstoreError::UnsupportedTransactionVersion && exists|i: int|
                0 <= i < transactions.len() && !(#[trigger] transactions[i]).is_legacy,
        },
{
}

/// The entries of a slot, as far as they are complete, are given out from its first shred on.
pub open spec fn gives_entries(store: BlockstoreView, slot: Slot, entries: Seq<EntryView>) -> bool {
    slot_entries_info(store, slot, 0, false) matches Ok(info) && info.0 == entries
}

/// Every shred of a slot is there.
pub open spec fn slot_complete(ledger: LedgerView, slot: Slot) -> bool {
    &&& ledger.meta.contains_key(slot)
    &&& ledger.meta[slot].last_index matches Some(last) && ledger.meta[slot].consumed == last + 1
}

/// A block that is given out is that of a complete slot. Its hash is that of the slot's last
/// entry, and its transactions are those of the slot's entries, each in its place and with the
/// status that is kept for it in the slot. Its parent, rewards, time and height are those that
/// are kept for the slot.
pub proof fn law_block_holds_its_slot(
    store: BlockstoreView,
    slot: Slot,
    require_previous_blockhash: bool,
    block: ConfirmedBlockView,
    entries: Seq<EntryView>,
)
    requires
        complete_block(store, slot, require_previous_blockhash) == Ok::<
            ConfirmedBlockView,
            BlockstoreError,
        >(block),
        gives_entries(store, slot, entries),
    ensures
        slot_complete(store.ledger, slot),
        entries.len() > 0,
        block.blockhash == entries[entries.len() - 1].hash,
        store.ledger.meta[slot].parent_slot is Some ==> store.ledger.meta[slot].parent_slot == Some(
            block.parent_slot,
        ),
        block.transactions.len() == transactions_before(entries, entries.len() as int),
        forall|i: int, j: int|
            0 <= i < entries.len() && 0 <= j < entries[i].transactions.len() ==> {
                let t = #[trigger] entries[i].transactions[j];
                let given = block.transactions[transactions_before(entries, i) + j];
                &&& same_transaction(t, given.transaction)
                &&& same_status(store.ledger, t.signature, slot, given.meta)
            },
        store.ledger.rewards.contains_key(slot) ==> block.rewards == store.ledger.rewards[slot],
        !store.ledger.rewards.contains_key(slot) ==> block.rewards.len() == 0,
        block.block_time is Some <==> store.ledger.blocktime.contains_key(slot),
        block.block_time is Some ==> block.block_time->0 == store.ledger.blocktime[slot],
        block.block_height is Some <==> store.ledger.block_height.contains_key(slot),
        block.block_height is Some ==> block.block_height->0 == store.ledger.block_height[slot],
{
    law_every_transaction_is_collected(entries);
    law_statuses_are_added(store.ledger, slot, transactions_of(entries));
    assert forall|i: int, j: int|
        0 <= i < entries.len() && 0 <= j < entries[i].transactions.len() implies {
        let t = #[trigger] entries[i].transactions[j];
        let given = block.transactions[transactions_before(entries, i) + j];
        &&& same_transaction(t, given.transaction)
        &&& same_status(store.ledger, t.signature, slot, given.meta)
    } by {
        let place = transactions_before(entries, i) + j;
        assert(transactions_of(entries)[place] == entries[i].transactions[j]);
        let given = block.transactions[place];
        assert(same_transaction(transactions_of(entries)[place], given.transaction));
    }
}

/// The block of a complete slot is given out where its entries are, and there are some, of which
/// all transactions are of the unversioned format; and where the entries of its parent are given
/// out too, and there are some, unless they are not required. The hash before it is then that
/// of the parent's last entry.
pub proof fn law_block_is_given_out(
    store: BlockstoreView,
    slot: Slot,
    require_previous_blockhash: bool,
    entries: Seq<EntryView>,
)
    requires
        slot_complete(store.ledger, slot),
        gives_entries(store, slot, entries),
    ensures
        ({
            let given = complete_block(store, slot, require_previous_blockhash);
            let parent = store.ledger.meta[slot].parent_slot;
            &&& entries.len() == 0 ==> given == Err::<ConfirmedBlockView, BlockstoreError>(
                BlockstoreError::SlotUnavailable,
            )
            &&& forall|parents: Seq<EntryView>|
                entries.len() > 0 && parent is Some && #[trigger] gives_entries(
                    store,
                    parent->0,
                    parents,
                ) && parents.len() > 0 ==> if entries_legacy(entries) {
                    given matches Ok(block) && block.previous_blockhash == parents[parents.len()
                        - 1].hash
                } else {
                    given == Err::<ConfirmedBlockView, BlockstoreError>(
                        BlockstoreError::UnsupportedTransactionVersion,
                    )
                }
            &&& entries.len() > 0 && (forall|parents: Seq<EntryView>|
                parent is Some && #[trigger] gives_entries(store, parent->0, parents)
                    ==> parents.len() == 0) ==> if require_previous_blockhash {
                given == Err::<ConfirmedBlockView, BlockstoreError>(
                    BlockstoreError::ParentEntriesUnavailable,
                )
            } else if entries_legacy(entries) {
                given matches Ok(block) && block.previous_blockhash == (Blockhash { w0: 0, w1: 0 })
            } else {
                given == Err::<ConfirmedBlockView, BlockstoreError>(
                    BlockstoreError::UnsupportedTransactionVersion,
                )
            }
        }),
{
    let all = transactions_of(entries);
    let parent = store.ledger.meta[slot].parent_slot;
    law_every_transaction_is_collected(entries);
    law_statuses_are_added(store.ledger, slot, all);
    if entries_legacy(entries) {
        assert forall|x: int| 0 <= x < all.len() implies (#[trigger] all[x]).is_legacy by {
            let (i, j) = lemma_place_of_transaction(entries, x);
            assert(entries[i].transactions[j].is_legacy);
        }
    } else {
        let (i, j) = choose|i: int, j: int|
            0 <= i < entries.len() && 0 <= j < entries[i].transactions.len() && !(
            #[trigger] entries[i].transactions[j]).is_legacy;
        let place = transactions_before(entries, i) + j;
        assert(all[place] == entries[i].transactions[j]);
        assert(!all[place].is_legacy);
    }
    if parent is Some {
        match slot_entries_info(store, parent->0, 0, false) {
            Ok(info) => {
                assert(gives_entries(store, parent->0, info.0));
            },
            Err(_) => {},
        }
    }
}

/// Blocks follow each other: the hash that a block names as the one before it is the hash of the
/// block of its parent slot, where that is given out too.
pub proof fn law_blocks_follow_each_other(
    store: BlockstoreView,
    slot: Slot,
    require_previous_blockhash: bool,
    require_for_parent: bool,
    block: ConfirmedBlockView,
    parent: ConfirmedBlockView,
)
    requires
        complete_block(store, slot, require_previous_blockhash) == Ok::<
            ConfirmedBlockView,
            BlockstoreError,
        >(block),
        store.ledger.meta[slot].parent_slot is Some,
        complete_block(store, store.ledger.meta[slot].parent_slot->0, require_for_parent) == Ok::<
            ConfirmedBlockView,
            BlockstoreError,
        >(parent),
    ensures
        block.parent_slot == store.ledger.meta[slot].parent_slot->0,
        block.previous_blockhash == parent.blockhash,
{
}

/// The block of a slot that is marked as a root and was not purged is that of the slot. No other
/// slot gives out a rooted block.
pub proof fn law_rooted_blocks(store: BlockstoreView, slot: Slot, require_previous_blockhash: bool)
    ensures
        ({
            let given = rooted_block(store, slot, require_previous_blockhash);
            let purged = store.lowest_cleanup_slot > 0 && slot <= store.lowest_cleanup_slot;
            let is_root = store.ledger.roots.contains_key(slot) && store.ledger.roots[slot];
            &&& purged ==> given == Err::<ConfirmedBlockView, BlockstoreError>(
                BlockstoreError::SlotCleanedUp,
            )
            &&& !purged && !is_root ==> given == Err::<ConfirmedBlockView, BlockstoreError>(
                BlockstoreError::SlotNotRooted,
            )
            &&& !purged && is_root ==> given == complete_block(
                store,
                slot,
                require_previous_blockhash,
            )
        }),
{
}

/// A status of a transaction is kept under an index for a slot that was not purged, and that is
/// marked as a root or one of those given as confirmed.
pub open spec fn keeps_status(
    store: BlockstoreView,
    unrooted: Seq<Slot>,
    i: u64,
    signature: Signature,
    slot: Slot,
) -> bool {
    let ledger = store.ledger;
    &&& ledger.transaction_status.contains_key(StatusKey { primary_index: i, signature, slot })
    &&& slot > store.lowest_cleanup_slot
    &&& (ledger.roots.contains_key(slot) && ledger.roots[slot]) || unrooted.contains(slot)
}

/// No status of a transaction is to be found before that under an index for a slot: none of a
/// lower slot under the same index, and, for index 1, none at all under index 0.
pub open spec fn found_first(
    store: BlockstoreView,
    unrooted: Seq<Slot>,
    i: u64,
    signature: Signature,
    slot: Slot,
) -> bool {
    &&& i <= 1
    &&& keeps_status(store, unrooted, i, signature, slot)
    &&& forall|s: Slot| #[trigger]
        keeps_status(store, unrooted, i, signature, s) ==> slot <= s
    &&& i == 1 ==> forall|s: Slot| !#[trigger] keeps_status(store, unrooted, 0, signature, s)
}

/// The status of a transaction is the first that is found in a confirmed slot. Where there is
/// none there, there is no status.
pub proof fn law_status_is_found(
    store: BlockstoreView,
    unrooted: Seq<Slot>,
    signature: Signature,
)
    ensures
        forall|i: u64, slot: Slot| #[trigger]
            found_first(store, unrooted, i, signature, slot) ==> {
                let kept = store.ledger.transaction_status[StatusKey {
                    primary_index: i,
                    signature,
                    slot,
                }];
                match transaction_status(store, signature, unrooted) {
                    Some(found) => kept == Some(found.1) && found.0 == slot,
                    None => kept is None,
                }
            },
        (forall|i: u64, slot: Slot|
            i <= 1 ==> !#[trigger] keeps_status(store, unrooted, i, signature, slot)) ==> (
        transaction_status(store, signature, unrooted) is None),
{
    let ledger = store.ledger;
    let lowest = store.lowest_cleanup_slot + 1;
    let first0 = first_status_slot(ledger, 0, signature, lowest, unrooted);
    let first1 = first_status_slot(ledger, 1, signature, lowest, unrooted);
    assert forall|i: u64, s: Slot| #[trigger]
        has_status(ledger, i, signature, lowest, unrooted, s) <==> keeps_status(
            store,
            unrooted,
            i,
            signature,
            s,
        ) by {
    }
    if first0 is Some {
        lemma_first_status_found(ledger, 0, signature, lowest, unrooted);
    }
    if first1 is Some {
        lemma_first_status_found(ledger, 1, signature, lowest, unrooted);
    }
    assert forall|i: u64, slot: Slot| #[trigger]
        found_first(store, unrooted, i, signature, slot) implies {
        let kept = ledger.transaction_status[StatusKey { primary_index: i, signature, slot }];
        match transaction_status(store, signature, unrooted) {
            Some(found) => kept == Some(found.1) && found.0 == slot,
            None => kept is None,
        }
    } by {
        assert(has_status(ledger, i, signature, lowest, unrooted, slot));
        assert forall|t: u64| #[trigger]
            has_status(ledger, i, signature, lowest, unrooted, t) implies slot <= t by {
            assert(keeps_status(store, unrooted, i, signature, t));
        }
        assert(is_first_status(ledger, i, signature, lowest, unrooted, slot));
        lemma_only_first(ledger, i, signature, lowest, unrooted, slot);
        if i == 1 && first0 is Some {
            assert(!keeps_status(store, unrooted, 0, signature, first0->0));
        }
    }
}

proof fn lemma_only_first(
    ledger: LedgerView,
    i: u64,
    signature: Signature,
    lowest: int,
    unrooted: Seq<Slot>,
    slot: Slot,
)
    requires
        is_first_status(ledger, i, signature, lowest, unrooted, slot),
    ensures
        first_status_slot(ledger, i, signature, lowest, unrooted) == Some(slot),
{
    let c = choose|c: u64| is_first_status(ledger, i, signature, lowest, unrooted, c);
    assert(is_first_status(ledger, i, signature, lowest, unrooted, c));
    assert(has_status(ledger, i, signature, lowest, unrooted, c));
    assert(has_status(ledger, i, signature, lowest, unrooted, slot));
}

/// The transaction at a place in the entries of a slot is the only one there with its signature.
pub open spec fn only_with_signature(entries: Seq<EntryView>, a: int, b: int) -> bool {
    &&& 0 <= a < entries.len()
    &&& 0 <= b < entries[a].transactions.len()
    &&& forall|i: int, j: int|
        0 <= i < entries.len() && 0 <= j < entries[i].transactions.len() && (
        #[trigger] entries[i].transactions[j]).signature == entries[a].transactions[b].signature
            ==> i == a && j == b
}

proof fn lemma_first_with(
    transactions: Seq<VersionedTransactionView>,
    signature: Signature,
    x: int,
)
    requires
        0 <= x < transactions.len(),
        transactions[x].signature == signature,
        forall|y: int| 0 <= y < x ==> (#[trigger] transactions[y]).signature != signature,
    ensures
        transaction_with(transactions, signature) == Some(transactions[x]),
    decreases x,
{
    if x > 0 {
        let rest = transactions.drop_first();
        assert(transactions[0].signature != signature);
        assert forall|y: int| 0 <= y < x - 1 implies (#[trigger] rest[y]).signature
            != signature by {
            assert(rest[y] == transactions[y + 1]);
        }
        assert(rest[x - 1] == transactions[x]);
        lemma_first_with(rest, signature, x - 1);
    }
}

proof fn lemma_none_with(transactions: Seq<VersionedTransactionView>, signature: Signature)
    requires
        forall|y: int|
            0 <= y < transactions.len() ==> (#[trigger] transactions[y]).signature != signature,
    ensures
        transaction_with(transactions, signature) is None,
    decreases transactions.len(),
{
    if transactions.len() > 0 {
        let rest = transactions.drop_first();
        assert(transactions[0].signature != signature);
        assert forall|y: int| 0 <= y < rest.len() implies (#[trigger] rest[y]).signature
            != signature by {
            assert(rest[y] == transactions[y + 1]);
        }
        lemma_none_with(rest, signature);
    }
}

/// A transaction is found in the slot whose entries hold it, in whichever entry and at whichever
/// place, and one that no entry holds is not found.
pub proof fn law_transaction_is_found_in_slot(
    store: BlockstoreView,
    slot: Slot,
    signature: Signature,
    entries: Seq<EntryView>,
)
    requires
        gives_entries(store, slot, entries),
    ensures
        forall|a: int, b: int| #[trigger]
            only_with_signature(entries, a, b) && entries[a].transactions[b].signature == signature
                ==> transaction_in_slot(store, slot, signature) == Ok::<
                Option<VersionedTransactionView>,
                BlockstoreError,
            >(Some(entries[a].transactions[b])),
        (forall|i: int, j: int|
            0 <= i < entries.len() && 0 <= j < entries[i].transactions.len() ==> (
            #[trigger] entries[i].transactions[j]).signature != signature) ==> transaction_in_slot(
            store,
            slot,
            signature,
        ) == Ok::<Option<VersionedTransactionView>, BlockstoreError>(None),
{
    let all = transactions_of(entries);
    law_every_transaction_is_collected(entries);
    assert forall|a: int, b: int| #[trigger]
        only_with_signature(entries, a, b) && entries[a].transactions[b].signature
            == signature implies transaction_in_slot(store, slot, signature) == Ok::<
        Option<VersionedTransactionView>,
        BlockstoreError,
    >(Some(entries[a].transactions[b])) by {
        let x = transactions_before(entries, a) + b;
        assert(all[x] == entries[a].transactions[b]);
        assert forall|y: int| 0 <= y < x implies (#[trigger] all[y]).signature != signature by {
            let (i, j) = lemma_place_of_transaction(entries, y);
            if entries[i].transactions[j].signature == signature {
                assert(i == a && j == b);
            }
        }
        lemma_first_with(all, signature, x);
    }
    if forall|i: int, j: int|
        0 <= i < entries.len() && 0 <= j < entries[i].transactions.len() ==> (
        #[trigger] entries[i].transactions[j]).signature != signature {
        assert forall|y: int| 0 <= y < all.len() implies (#[trigger] all[y]).signature
            != signature by {
            let (i, j) = lemma_place_of_transaction(entries, y);
            assert(entries[i].transactions[j].signature != signature);
        }
        lemma_none_with(all, signature);
    }
}

/// A transaction with a status in a confirmed slot whose entries hold it is given out, with that
/// slot, that status and the time of the slot. It is refused where it is of a versioned format,
/// or where the entries of the slot do not hold it; and without a status there is none to give.
pub proof fn law_transaction_is_given_out(
    store: BlockstoreView,
    unrooted: Seq<Slot>,
    signature: Signature,
    i: u64,
    slot: Slot,
    status: TransactionStatusMetaView,
    entries: Seq<EntryView>,
)
    requires
        found_first(store, unrooted, i, signature, slot),
        store.ledger.transaction_status[StatusKey { primary_index: i, signature, slot }] == Some(
            status,
        ),
        gives_entries(store, slot, entries),
    ensures
        forall|a: int, b: int| #[trigger]
            only_with_signature(entries, a, b) && entries[a].transactions[b].signature == signature
                ==> {
                let given = transaction_with_status(store, signature, unrooted);
                if entries[a].transactions[b].is_legacy {
                    &&& given matches Ok(Some(c)) && {
                        &&& c.slot == slot
                        &&& same_transaction(entries[a].transactions[b], c.transaction.transaction)
                        &&& c.transaction.meta == Some(status)
                        &&& c.block_time is Some <==> store.ledger.blocktime.contains_key(slot)
                        &&& c.block_time is Some ==> c.block_time->0 == store.ledger.blocktime[slot]
                    }
                } else {
                    given == Err::<Option<ConfirmedTransactionView>, BlockstoreError>(
                        BlockstoreError::UnsupportedTransactionVersion,
                    )
                }
            },
        (forall|x: int, y: int|
            0 <= x < entries.len() && 0 <= y < entries[x].transactions.len() ==> (
            #[trigger] entries[x].transactions[y]).signature != signature)
            ==> transaction_with_status(store, signature, unrooted) == Err::<
            Option<ConfirmedTransactionView>,
            BlockstoreError,
        >(BlockstoreError::TransactionStatusSlotMismatch),
{
    law_status_is_found(store, unrooted, signature);
    law_transaction_is_found_in_slot(store, slot, signature, entries);
}

} // verus!
