//! How many records are looked at to find the status of a transaction.

use vstd::prelude::*;
use crate::block_laws::keeps_status;
use crate::blockstore::BlockstoreView;
use crate::column::{lemma_finite_orders, lemma_lower, lemma_split_exists, ordered_keys, ColumnKey};
use crate::ledger::LedgerView;
use crate::transactions::{
    confirmed, first_status_slot, has_status, index_lookups, keys_looked_at, status_lookups, told,
};
use crate::types::{Signature, Slot, StatusKey};

verus! {

/// The records of a transaction under an index, of slots that were not purged, that come before
/// any of a confirmed slot.
pub open spec fn passed_over(
    store: BlockstoreView,
    unrooted: Seq<Slot>,
    i: u64,
    signature: Signature,
) -> Set<StatusKey> {
    Set::new(
        |k: StatusKey|
            {
                &&& store.ledger.transaction_status.contains_key(k)
                &&& k.primary_index == i
                &&& k.signature == signature
                &&& k.slot > store.lowest_cleanup_slot
                &&& forall|s: Slot| #[trigger]
                    keeps_status(store, unrooted, i, signature, s) ==> k.slot < s
            },
    )
}

/// Some record comes behind all those of a transaction under an index.
pub open spec fn some_behind(ledger: LedgerView, i: u64, signature: Signature) -> bool {
    exists|k: StatusKey| #[trigger]
        ledger.transaction_status.contains_key(k) && (k.primary_index > i || (k.primary_index == i
            && signature.before(k.signature)))
}

/// A status of a transaction is to be found under an index.
pub open spec fn some_kept(
    store: BlockstoreView,
    unrooted: Seq<Slot>,
    i: u64,
    signature: Signature,
) -> bool {
    exists|s: Slot| #[trigger] keeps_status(store, unrooted, i, signature, s)
}

/// How many records are to be looked at under an index: those that are passed over, and the one
/// that ends the search.
pub open spec fn looked_at(
    store: BlockstoreView,
    unrooted: Seq<Slot>,
    i: u64,
    signature: Signature,
) -> nat {
    passed_over(store, unrooted, i, signature).len() + if some_kept(store, unrooted, i, signature)
        || some_behind(store.ledger, i, signature) {
        1nat
    } else {
        0nat
    }
}

/// A search passes over the records of the transaction that are not confirmed, and ends at the
/// first other record.
proof fn lemma_search(
    ledger: LedgerView,
    keys: Seq<StatusKey>,
    p: int,
    i: u64,
    signature: Signature,
    unrooted: Seq<Slot>,
) -> (q: int)
    requires
        0 <= p <= keys.len(),
    ensures
        p <= q <= keys.len(),
        forall|x: int|
            p <= x < q ==> (#[trigger] keys[x]).primary_index == i && keys[x].signature == signature
                && !confirmed(ledger, unrooted, keys[x].slot),
        q < keys.len() ==> keys[q].primary_index != i || keys[q].signature != signature
            || confirmed(ledger, unrooted, keys[q].slot),
        keys_looked_at(ledger, keys, p, i, signature, unrooted) == q - p + if q < keys.len() {
            1int
        } else {
            0int
        },
    decreases keys.len() - p,
{
    if p >= keys.len() || keys[p].primary_index != i || keys[p].signature != signature || confirmed(
        ledger,
        unrooted,
        keys[p].slot,
    ) {
        p
    } else {
        lemma_search(ledger, keys, p + 1, i, signature, unrooted)
    }
}

proof fn lemma_index_lookups(
    store: BlockstoreView,
    i: u64,
    signature: Signature,
    unrooted: Seq<Slot>,
)
    requires
        store.ledger.transaction_status.dom().finite(),
        store.lowest_cleanup_slot < u64::MAX,
    ensures
        index_lookups(store, i, signature, unrooted) == looked_at(store, unrooted, i, signature),
{
    let ledger = store.ledger;
    let map = ledger.transaction_status;
    let keys = ordered_keys(map);
    lemma_finite_orders(map);
    let lowest = (store.lowest_cleanup_slot + 1) as u64;
    let start = StatusKey { primary_index: i, signature, slot: lowest };
    let p = lemma_split_exists(keys, start);
    lemma_lower(keys, start, p);
    let q = lemma_search(ledger, keys, p, i, signature, unrooted);
    let passed = keys.subrange(p, q);
    let all = passed_over(store, unrooted, i, signature);
    // Where a record of the transaction stands.
    assert forall|k: StatusKey|
        map.contains_key(k) && k.primary_index == i && k.signature == signature && k.slot
            >= lowest implies exists|y: int| p <= y < keys.len() && #[trigger] keys[y] == k by {
        assert(keys.contains(k));
        let y = choose|y: int| 0 <= y < keys.len() && keys[y] == k;
        if y < p {
            assert(keys[y].before(start));
            StatusKey::lemma_irreflexive(start);
            assert(!k.before(start));
        }
    }
    assert forall|x: int, y: int| p <= x <= y < keys.len() && (#[trigger] keys[y]).primary_index == i
        && keys[y].signature == signature implies (#[trigger] keys[x]).primary_index == i
        && keys[x].signature == signature && lowest <= keys[x].slot <= keys[y].slot by {
        assert(!keys[x].before(start));
        StatusKey::lemma_total(keys[x], start);
        Signature::lemma_total(keys[x].signature, signature);
        if x < y {
            assert(keys[x].before(keys[y]));
        }
    }
    assert forall|k: StatusKey| #[trigger] all.contains(k) <==> passed.to_set().contains(k) by {
        if all.contains(k) {
            assert(keys.contains(k));
            let y = choose|y: int| p <= y < keys.len() && #[trigger] keys[y] == k;
            if y >= q {
                assert(keys[q].primary_index == i && keys[q].signature == signature);
                assert(keys[q] == StatusKey { primary_index: i, signature, slot: keys[q].slot });
                assert(keys.contains(keys[q]));
                assert(keeps_status(store, unrooted, i, signature, keys[q].slot));
            }
            assert(passed[y - p] == k);
        }
        if passed.to_set().contains(k) {
            let x = choose|x: int| 0 <= x < passed.len() && passed[x] == k;
            assert(keys[p + x] == k);
            assert(keys.contains(k));
            assert forall|s: Slot| #[trigger]
                keeps_status(store, unrooted, i, signature, s) implies k.slot < s by {
                let other = StatusKey { primary_index: i, signature, slot: s };
                let y = choose|y: int| p <= y < keys.len() && #[trigger] keys[y] == other;
                if y < q {
                    assert(!confirmed(ledger, unrooted, keys[y].slot));
                }
                assert(keys[p + x].before(keys[y]));
            }
        }
    }
    assert(all =~= passed.to_set());
    assert(passed.no_duplicates()) by {
        assert forall|x: int, y: int|
            0 <= x < passed.len() && 0 <= y < passed.len() && x != y implies passed[x]
            != passed[y] by {
            if x < y {
                assert(keys[p + x].before(keys[p + y]));
                StatusKey::lemma_irreflexive(keys[p + x]);
            } else {
                assert(keys[p + y].before(keys[p + x]));
                StatusKey::lemma_irreflexive(keys[p + x]);
            }
        }
    }
    passed.unique_seq_to_set();
    if q < keys.len() {
        assert(keys.contains(keys[q]));
        assert(!keys[q].before(start));
        StatusKey::lemma_total(keys[q], start);
        Signature::lemma_total(keys[q].signature, signature);
        if keys[q].primary_index == i && keys[q].signature == signature {
            assert(keys[q] == StatusKey { primary_index: i, signature, slot: keys[q].slot });
            assert(keeps_status(store, unrooted, i, signature, keys[q].slot));
        } else {
            assert(map.contains_key(keys[q]));
            assert(keys[q].primary_index > i || (keys[q].primary_index == i && signature.before(
                keys[q].signature,
            )));
        }
    } else {
        if some_kept(store, unrooted, i, signature) {
            let s = choose|s: Slot| #[trigger] keeps_status(store, unrooted, i, signature, s);
            let other = StatusKey { primary_index: i, signature, slot: s };
            let y = choose|y: int| p <= y < keys.len() && #[trigger] keys[y] == other;
            assert(!confirmed(ledger, unrooted, keys[y].slot));
        }
        if some_behind(ledger, i, signature) {
            let k = choose|k: StatusKey| #[trigger]
                map.contains_key(k) && (k.primary_index > i || (k.primary_index == i
                    && signature.before(k.signature)));
            assert(keys.contains(k));
            let y = choose|y: int| 0 <= y < keys.len() && keys[y] == k;
            Signature::lemma_irreflexive(signature);
            if y < p {
                assert(keys[y].before(start));
                StatusKey::lemma_transitive(start, k, start);
                StatusKey::lemma_irreflexive(start);
            }
        }
    }
}

/// The records that are looked at are counted: under the first index, each record of the
/// transaction that is passed over because its slot is not confirmed, and the one that ends the
/// search, which is the one that is found or the next one behind; and, where nothing is found
/// there, those under the second index in the same way. The count is told as it is, as far as it can
/// be told.
pub proof fn law_lookups_are_counted(
    store: BlockstoreView,
    signature: Signature,
    unrooted: Seq<Slot>,
)
    requires
        store.ledger.transaction_status.dom().finite(),
        store.lowest_cleanup_slot < u64::MAX,
    ensures
        status_lookups(store, signature, unrooted) == looked_at(store, unrooted, 0, signature)
            + if some_kept(store, unrooted, 0, signature) {
            0nat
        } else {
            looked_at(store, unrooted, 1, signature)
        },
        status_lookups(store, signature, unrooted) <= u64::MAX ==> told(
            status_lookups(store, signature, unrooted),
        ) == status_lookups(store, signature, unrooted),
{
    let lowest = store.lowest_cleanup_slot + 1;
    lemma_index_lookups(store, 0, signature, unrooted);
    lemma_index_lookups(store, 1, signature, unrooted);
    assert forall|s: Slot| #[trigger]
        has_status(store.ledger, 0, signature, lowest, unrooted, s) <==> keeps_status(
            store,
            unrooted,
            0,
            signature,
            s,
        ) by {
    }
    if first_status_slot(store.ledger, 0, signature, lowest, unrooted) is Some {
        let s = choose|s: u64| has_status(store.ledger, 0, signature, lowest, unrooted, s);
        assert(keeps_status(store, unrooted, 0, signature, s));
    }
    if some_kept(store, unrooted, 0, signature) {
        let s = choose|s: Slot| #[trigger] keeps_status(store, unrooted, 0, signature, s);
        assert(has_status(store.ledger, 0, signature, lowest, unrooted, s));
    }
}

} // verus!
