//! What holds of the signatures that are listed for an address.

use vstd::prelude::*;
use crate::addresses::{
    address_listing, address_signatures, at_most, block_signatures, descending_signatures,
    index_signatures, insert_descending, key_in_range, later, listed_signatures, listing_end,
    listing_start, merged, not_after, other_index, pair_before, slot_signatures,
    slots_and_signatures, walk_down, walk_start, without_signatures,
};
use crate::block_laws::{found_first, keeps_status, law_status_is_found};
use crate::blocks::complete_block;
use crate::blockstore::BlockstoreView;
use crate::column::{
    increasing, lemma_finite_orders, lemma_lower, lemma_split_exists, ordered_keys, selected,
    ColumnKey,
};
use crate::ledger::LedgerView;
use crate::records::{
    BlockstoreError, ConfirmedTransactionStatusWithSignatureView, TransactionWithStatusMetaView,
};
use crate::root_laws::{is_ancestor, law_confirmed_slots_are_ancestors};
use crate::roots::{confirmed_unrooted, descends, first_available_block, rooted};
use crate::transactions::confirmed;
use crate::types::{AddressKey, Pubkey, Signature, Slot, StatusKey};

verus! {

/// Under index `i`, the transaction with a signature in a slot names an address.
pub open spec fn holds_key(
    ledger: LedgerView,
    i: u64,
    address: Pubkey,
    pair: (Slot, Signature),
) -> bool {
    ledger.address_signatures.contains_key(
        AddressKey { primary_index: i, address, slot: pair.0, signature: pair.1 },
    )
}

pub proof fn lemma_selected_increasing<K: ColumnKey>(keys: Seq<K>, keep: spec_fn(K) -> bool)
    requires
        increasing(keys),
    ensures
        increasing(selected(keys, keep)),
        forall|k: K| #[trigger]
            selected(keys, keep).contains(k) <==> keys.contains(k) && keep(k),
    decreases keys.len(),
{
    if keys.len() > 0 {
        let rest = keys.drop_last();
        let last = keys.last();
        assert forall|i: int, j: int| 0 <= i < j < rest.len() implies (#[trigger] rest[i]).before(
            #[trigger] rest[j],
        ) by {
            assert(keys[i].before(keys[j]));
        }
        lemma_selected_increasing(rest, keep);
        let chosen = selected(rest, keep);
        let all = selected(keys, keep);
        assert forall|i: int, j: int| 0 <= i < j < all.len() implies (#[trigger] all[i]).before(
            #[trigger] all[j],
        ) by {
            if j < chosen.len() {
                assert(chosen[i].before(chosen[j]));
            } else {
                assert(chosen.contains(chosen[i]));
                let n = choose|n: int| 0 <= n < rest.len() && rest[n] == chosen[i];
                assert(keys[n].before(keys[keys.len() - 1]));
            }
        }
        assert forall|k: K| #[trigger] all.contains(k) <==> keys.contains(k) && keep(k) by {
            assert(chosen.contains(k) <==> rest.contains(k) && keep(k));
            assert(keys == rest.push(last));
            if rest.contains(k) {
                let n = choose|n: int| 0 <= n < rest.len() && rest[n] == k;
                assert(keys[n] == k);
            }
            if keys.contains(k) && k != last {
                let n = choose|n: int| 0 <= n < keys.len() && keys[n] == k;
                assert(rest[n] == k);
            }
            if k == last {
                assert(keys[keys.len() - 1] == k);
            }
            if all.contains(k) {
                let n = choose|n: int| 0 <= n < all.len() && all[n] == k;
                if n < chosen.len() {
                    assert(chosen[n] == k);
                }
            }
            if chosen.contains(k) {
                let n = choose|n: int| 0 <= n < chosen.len() && chosen[n] == k;
                assert(all[n] == k);
            }
            if k == last && keep(k) {
                assert(all[all.len() - 1] == k);
            }
        }
    } else {
        assert(selected(keys, keep) =~= Seq::empty());
    }
}

/// Ordered by slot and then by signature, with nothing after what it should come before.
pub open spec fn in_order(s: Seq<(Slot, Signature)>) -> bool {
    forall|i: int, j: int| 0 <= i < j < s.len() ==> !pair_before(#[trigger] s[j], #[trigger] s[i])
}

pub proof fn lemma_merged_in_order(a: Seq<(Slot, Signature)>, b: Seq<(Slot, Signature)>)
    requires
        in_order(a),
        in_order(b),
    ensures
        in_order(merged(a, b)),
        forall|p: (Slot, Signature)| #[trigger]
            merged(a, b).contains(p) <==> a.contains(p) || b.contains(p),
    decreases a.len() + b.len(),
{
    if a.len() == 0 {
        assert(forall|p: (Slot, Signature)| !a.contains(p));
    } else if b.len() == 0 {
        assert(forall|p: (Slot, Signature)| !b.contains(p));
    } else {
        let from_b = pair_before(b[0], a[0]);
        let head = if from_b {
            b[0]
        } else {
            a[0]
        };
        let (ra, rb) = if from_b {
            (a, b.drop_first())
        } else {
            (a.drop_first(), b)
        };
        lemma_drop_first_in_order(a);
        lemma_drop_first_in_order(b);
        lemma_merged_in_order(ra, rb);
        let rest = merged(ra, rb);
        let all = merged(a, b);
        assert(all == seq![head] + rest);
        assert forall|p: (Slot, Signature)| #[trigger] rest.contains(p) implies !pair_before(
            p,
            head,
        ) by {
            assert(ra.contains(p) || rb.contains(p));
            if a.contains(p) {
                let n = choose|n: int| 0 <= n < a.len() && a[n] == p;
                assert(n == 0 || !pair_before(a[n], a[0]));
                lemma_pairs_ordered(p, a[0], b[0]);
            } else {
                let n = choose|n: int| 0 <= n < b.len() && b[n] == p;
                assert(n == 0 || !pair_before(b[n], b[0]));
                lemma_pairs_ordered(p, b[0], a[0]);
            }
        }
        assert forall|i: int, j: int| 0 <= i < j < all.len() implies !pair_before(
            #[trigger] all[j],
            #[trigger] all[i],
        ) by {
            assert(all[j] == rest[j - 1]);
            assert(rest.contains(rest[j - 1]));
            if i > 0 {
                assert(all[i] == rest[i - 1]);
            }
        }
        assert forall|p: (Slot, Signature)| #[trigger] all.contains(p) <==> a.contains(p)
            || b.contains(p) by {
            assert(rest.contains(p) <==> ra.contains(p) || rb.contains(p));
            assert(all[0] == head);
            if all.contains(p) {
                let n = choose|n: int| 0 <= n < all.len() && all[n] == p;
                if n > 0 {
                    assert(rest[n - 1] == p);
                }
            }
            if rest.contains(p) {
                let n = choose|n: int| 0 <= n < rest.len() && rest[n] == p;
                assert(all[n + 1] == p);
            }
        }
    }
}

proof fn lemma_drop_first_in_order(s: Seq<(Slot, Signature)>)
    requires
        in_order(s),
        s.len() > 0,
    ensures
        in_order(s.drop_first()),
        forall|p: (Slot, Signature)| #[trigger]
            s.contains(p) <==> p == s[0] || s.drop_first().contains(p),
{
    let rest = s.drop_first();
    assert forall|i: int, j: int| 0 <= i < j < rest.len() implies !pair_before(
        #[trigger] rest[j],
        #[trigger] rest[i],
    ) by {
        assert(!pair_before(s[j + 1], s[i + 1]));
    }
    assert forall|p: (Slot, Signature)| #[trigger] s.contains(p) <==> p == s[0] || rest.contains(
        p,
    ) by {
        if s.contains(p) && p != s[0] {
            let n = choose|n: int| 0 <= n < s.len() && s[n] == p;
            assert(rest[n - 1] == p);
        }
        if rest.contains(p) {
            let n = choose|n: int| 0 <= n < rest.len() && rest[n] == p;
            assert(s[n + 1] == p);
        }
    }
}

pub proof fn lemma_pairs_ordered(p: (Slot, Signature), q: (Slot, Signature), r: (Slot, Signature))
    ensures
        !pair_before(p, p),
        pair_before(p, q) && pair_before(q, r) ==> pair_before(p, r),
        !pair_before(p, q) && !pair_before(q, r) ==> !pair_before(p, r),
        pair_before(r, q) && !pair_before(p, q) ==> !pair_before(p, r),
{
    Signature::lemma_irreflexive(p.1);
    Signature::lemma_total(p.1, q.1);
    Signature::lemma_total(q.1, r.1);
    Signature::lemma_total(p.1, r.1);
}

pub proof fn lemma_index_signatures(
    ledger: LedgerView,
    i: u64,
    address: Pubkey,
    from: int,
    to: Slot,
    rooted_only: bool,
)
    requires
        ledger.address_signatures.dom().finite(),
    ensures
        ({
            let listed = index_signatures(ledger, i, address, from, to, rooted_only);
            &&& in_order(listed)
            &&& forall|p: (Slot, Signature)| #[trigger]
                listed.contains(p) <==> from <= p.0 <= to && (rooted_only ==> rooted(ledger, p.0))
                    && ledger.address_signatures.contains_key(
                    AddressKey { primary_index: i, address, slot: p.0, signature: p.1 },
                )
        }),
{
    let keys = ordered_keys(ledger.address_signatures);
    let keep = |k: AddressKey|
        key_in_range(k, i, address, from, to) && (rooted_only ==> rooted(ledger, k.slot));
    lemma_finite_orders(ledger.address_signatures);
    lemma_selected_increasing(keys, keep);
    let chosen = selected(keys, keep);
    let listed = index_signatures(ledger, i, address, from, to, rooted_only);
    assert(listed == slots_and_signatures(chosen));
    assert forall|x: int, y: int| 0 <= x < y < listed.len() implies !pair_before(
        #[trigger] listed[y],
        #[trigger] listed[x],
    ) by {
        assert(chosen[x].before(chosen[y]));
        assert(chosen.contains(chosen[x]) && chosen.contains(chosen[y]));
        Pubkey::lemma_irreflexive(address);
        Signature::lemma_irreflexive(listed[x].1);
        if listed[y].1.before(listed[x].1) && listed[x].1.before(listed[y].1) {
            Signature::lemma_transitive(listed[x].1, listed[y].1, listed[x].1);
        }
    }
    assert forall|p: (Slot, Signature)| #[trigger] listed.contains(p) <==> from <= p.0 <= to && (
    rooted_only ==> rooted(ledger, p.0)) && ledger.address_signatures.contains_key(
        AddressKey { primary_index: i, address, slot: p.0, signature: p.1 },
    ) by {
        let key = AddressKey { primary_index: i, address, slot: p.0, signature: p.1 };
        assert(chosen.contains(key) <==> keys.contains(key) && keep(key));
        assert(ledger.address_signatures.contains_key(key) <==> keys.contains(key));
        if listed.contains(p) {
            let n = choose|n: int| 0 <= n < listed.len() && listed[n] == p;
            assert(chosen.contains(chosen[n]));
            assert(chosen[n] == key);
        }
        if chosen.contains(key) {
            let n = choose|n: int| 0 <= n < chosen.len() && chosen[n] == key;
            assert(listed[n] == p);
        }
    }
}

/// The signatures that are found for an address are exactly those that name it under one of
/// the two indexes, in the rooted slots that were asked for and have not been purged. They come
/// ordered by slot and then by signature.
pub proof fn law_address_signatures_are_ordered(
    store: BlockstoreView,
    address: Pubkey,
    start: Slot,
    end: Slot,
)
    requires
        store.ledger.address_signatures.dom().finite(),
    ensures
        ({
            let found = address_signatures(store, address, start, end);
            &&& in_order(found)
            &&& forall|i: int, j: int|
                0 <= i < j < found.len() ==> (#[trigger] found[i]).0 <= (#[trigger] found[j]).0 && (
                found[i].0 == found[j].0 ==> !found[j].1.before(found[i].1))
            &&& forall|p: (Slot, Signature)| #[trigger]
                found.contains(p) <==> {
                    &&& start <= p.0 <= end
                    &&& p.0 > store.lowest_cleanup_slot
                    &&& rooted(store.ledger, p.0)
                    &&& names_address(store.ledger, address, p)
                }
        }),
{
    let from = later(start as int, store.lowest_cleanup_slot + 1);
    lemma_index_signatures(store.ledger, 0, address, from, end, true);
    lemma_index_signatures(store.ledger, 1, address, from, end, true);
    lemma_merged_in_order(
        index_signatures(store.ledger, 0, address, from, end, true),
        index_signatures(store.ledger, 1, address, from, end, true),
    );
}

/// The signatures that are found for an address in a slot are exactly those that name it there
/// under one of the two indexes, whether or not the slot is rooted, unless it was purged. They come
/// ordered.
pub proof fn law_signatures_of_a_slot(store: BlockstoreView, address: Pubkey, slot: Slot)
    requires
        store.ledger.address_signatures.dom().finite(),
    ensures
        ({
            let found = slot_signatures(store, address, slot);
            &&& forall|i: int, j: int|
                0 <= i < j < found.len() ==> !(#[trigger] found[j]).1.before(
                    (#[trigger] found[i]).1,
                )
            &&& forall|p: (Slot, Signature)| #[trigger]
                found.contains(p) <==> p.0 == slot && slot > store.lowest_cleanup_slot
                    && names_address(store.ledger, address, p)
        }),
{
    let from = later(slot as int, store.lowest_cleanup_slot + 1);
    lemma_index_signatures(store.ledger, 0, address, from, slot, false);
    lemma_index_signatures(store.ledger, 1, address, from, slot, false);
    lemma_merged_in_order(
        index_signatures(store.ledger, 0, address, from, slot, false),
        index_signatures(store.ledger, 1, address, from, slot, false),
    );
    let found = slot_signatures(store, address, slot);
    assert forall|i: int, j: int| 0 <= i < j < found.len() implies !(#[trigger] found[j]).1.before(
        (#[trigger] found[i]).1,
    ) by {
        assert(found.contains(found[i]) && found.contains(found[j]));
        assert(!pair_before(found[j], found[i]));
    }
}

/// Under one of the two indexes, the transaction with a signature in a slot names an address.
pub open spec fn names_address(
    ledger: LedgerView,
    address: Pubkey,
    pair: (Slot, Signature),
) -> bool {
    holds_key(ledger, 0, address, pair) || holds_key(ledger, 1, address, pair)
}

/// A listing of the signatures of an address never holds more than its limit.
pub proof fn law_listing_is_limited(
    store: BlockstoreView,
    address: Pubkey,
    highest_slot: Slot,
    before: Option<Signature>,
    until: Option<Signature>,
    limit: usize,
)
    ensures
        address_listing(store, address, highest_slot, before, until, limit) matches Ok(infos)
            ==> infos.len() <= limit,
{
}

proof fn lemma_insert_descending_sorts(s: Seq<Signature>, x: Signature)
    requires
        forall|i: int, j: int| 0 <= i < j < s.len() ==> !(#[trigger] s[i]).before(#[trigger] s[j]),
    ensures
        ({
            let r = insert_descending(s, x);
            &&& forall|i: int, j: int|
                0 <= i < j < r.len() ==> !(#[trigger] r[i]).before(#[trigger] r[j])
            &&& r.to_multiset() == s.to_multiset().insert(x)
            &&& forall|k: Signature| #[trigger] r.contains(k) ==> k == x || s.contains(k)
        }),
    decreases s.len(),
{
    broadcast use vstd::seq_lib::group_to_multiset_ensures;

    let r = insert_descending(s, x);
    if s.len() == 0 {
        assert(s =~= Seq::empty());
        assert(seq![x] =~= s.push(x));
    } else if s.last().before(x) {
        let d = s.drop_last();
        let last = s.last();
        assert forall|i: int, j: int| 0 <= i < j < d.len() implies !(#[trigger] d[i]).before(
            #[trigger] d[j],
        ) by {
            assert(!s[i].before(s[j]));
        }
        lemma_insert_descending_sorts(d, x);
        let q = insert_descending(d, x);
        assert(s =~= d.push(last));
        assert(r.to_multiset() =~= d.to_multiset().insert(x).insert(last));
        assert(r.to_multiset() =~= s.to_multiset().insert(x));
        assert forall|k: Signature| #[trigger] r.contains(k) implies k == x || s.contains(k) by {
            let n = choose|n: int| 0 <= n < r.len() && r[n] == k;
            if n < q.len() {
                assert(q.contains(q[n]));
                if k != x {
                    let m = choose|m: int| 0 <= m < d.len() && d[m] == k;
                    assert(s[m] == k);
                }
            } else {
                assert(s[s.len() - 1] == k);
            }
        }
        assert forall|i: int, j: int| 0 <= i < j < r.len() implies !(#[trigger] r[i]).before(
            #[trigger] r[j],
        ) by {
            if j < q.len() {
                assert(!q[i].before(q[j]));
            } else {
                assert(q.contains(q[i]));
                if q[i] == x {
                    if x.before(last) {
                        Signature::lemma_transitive(x, last, x);
                        Signature::lemma_irreflexive(x);
                    }
                } else {
                    let m = choose|m: int| 0 <= m < d.len() && d[m] == q[i];
                    assert(!s[m].before(s[s.len() - 1]));
                }
            }
        }
    } else {
        assert forall|i: int, j: int| 0 <= i < j < r.len() implies !(#[trigger] r[i]).before(
            #[trigger] r[j],
        ) by {
            if j == s.len() {
                if s[i].before(x) {
                    let last = s.last();
                    Signature::lemma_total(last, x);
                    if i < s.len() - 1 {
                        assert(!s[i].before(s[s.len() - 1]));
                    }
                    if x.before(last) {
                        Signature::lemma_transitive(s[i], x, last);
                    }
                }
            } else {
                assert(!s[i].before(s[j]));
            }
        }
        assert forall|k: Signature| #[trigger] r.contains(k) implies k == x || s.contains(k) by {
            let n = choose|n: int| 0 <= n < r.len() && r[n] == k;
            if n < s.len() {
                assert(s[n] == k);
            }
        }
    }
}

/// The signatures of a block are those of its transactions, each as often as there, in
/// decreasing order.
pub proof fn law_block_signatures_descend(transactions: Seq<TransactionWithStatusMetaView>)
    ensures
        ({
            let sorted = descending_signatures(transactions);
            let signatures = transactions.map_values(
                |t: TransactionWithStatusMetaView| t.transaction.signature,
            );
            &&& forall|i: int, j: int|
                0 <= i < j < sorted.len() ==> !(#[trigger] sorted[i]).before(#[trigger] sorted[j])
            &&& sorted.to_multiset() == signatures.to_multiset()
        }),
    decreases transactions.len(),
{
    broadcast use vstd::seq_lib::group_to_multiset_ensures;

    let first = |t: TransactionWithStatusMetaView| t.transaction.signature;
    let signatures = transactions.map_values(first);
    if transactions.len() == 0 {
        assert(signatures =~= Seq::empty());
    } else {
        let rest = transactions.drop_last();
        law_block_signatures_descend(rest);
        lemma_insert_descending_sorts(
            descending_signatures(rest),
            transactions.last().transaction.signature,
        );
        assert(signatures =~= rest.map_values(first).push(
            transactions.last().transaction.signature,
        ));
    }
}


/// A pair that may stand in a listing from `slot` down: under some index its transaction names
/// the address; the slot is not above `slot`; and it is confirmed, or is `slot` itself, or the
/// slot where the two indexes meet.
pub open spec fn may_be_listed(
    store: BlockstoreView,
    unrooted: Seq<Slot>,
    address: Pubkey,
    slot: Slot,
    pair: (Slot, Signature),
) -> bool {
    let crossing = store.ledger.transaction_status_index[other_index(
        store.active_transaction_status_index,
    )].max_slot;
    &&& exists|i: u64| #[trigger] holds_key(store.ledger, i, address, pair)
    &&& pair.0 <= slot
    &&& pair.0 == slot || pair.0 == crossing || confirmed(store.ledger, unrooted, pair.0)
}

/// Every pair may stand in a listing from `slot` down.
pub open spec fn all_may_be_listed(
    store: BlockstoreView,
    unrooted: Seq<Slot>,
    address: Pubkey,
    slot: Slot,
    pairs: Seq<(Slot, Signature)>,
) -> bool {
    forall|j: int|
        0 <= j < pairs.len() ==> may_be_listed(store, unrooted, address, slot, #[trigger] pairs[j])
}

proof fn lemma_selected_members<K>(keys: Seq<K>, keep: spec_fn(K) -> bool)
    ensures
        forall|j: int|
            0 <= j < selected(keys, keep).len() ==> keys.contains(#[trigger] selected(keys, keep)[j])
                && keep(selected(keys, keep)[j]),
    decreases keys.len(),
{
    if keys.len() > 0 {
        let rest = keys.drop_last();
        lemma_selected_members(rest, keep);
        let all = selected(keys, keep);
        let earlier = selected(rest, keep);
        assert forall|j: int| 0 <= j < all.len() implies keys.contains(#[trigger] all[j]) && keep(
            all[j],
        ) by {
            if j < earlier.len() {
                assert(all[j] == earlier[j]);
                let n = choose|n: int| 0 <= n < rest.len() && rest[n] == all[j];
                assert(keys[n] == all[j]);
            } else {
                assert(keys[keys.len() - 1] == all[j]);
            }
        }
    }
}

proof fn lemma_not_after(keys: Seq<AddressKey>, k: AddressKey, j: int)
    requires
        increasing(keys),
        0 <= j < not_after(keys, k),
    ensures
        j < keys.len(),
        keys[j].before(k) || keys[j] == k,
{
    let p = lemma_split_exists(keys, k);
    lemma_lower(keys, k, p);
    if keys.contains(k) {
        let n = choose|n: int| 0 <= n < keys.len() && keys[n] == k;
        AddressKey::lemma_irreflexive(k);
        assert(n >= p);
        if n > p {
            assert(keys[p].before(keys[n]));
            assert(!keys[p].before(k));
        }
    }
}

proof fn lemma_walk_may_be_listed(
    store: BlockstoreView,
    unrooted: Seq<Slot>,
    n: int,
    i: u64,
    address: Pubkey,
    slot: Slot,
    crossing_slot: Slot,
    stops_at_crossing: bool,
    lowest_slot: Slot,
    first_available: Slot,
    limit: usize,
    found: Seq<(Slot, Signature)>,
)
    requires
        store.ledger.address_signatures.dom().finite(),
        n <= not_after(ordered_keys(store.ledger.address_signatures), walk_start(i, address, slot)),
        all_may_be_listed(store, unrooted, address, slot, found),
    ensures
        all_may_be_listed(
            store,
            unrooted,
            address,
            slot,
            walk_down(
                store.ledger,
                unrooted,
                ordered_keys(store.ledger.address_signatures),
                n,
                i,
                address,
                crossing_slot,
                stops_at_crossing,
                lowest_slot,
                first_available,
                limit,
                found,
            ),
        ),
    decreases n,
{
    let keys = ordered_keys(store.ledger.address_signatures);
    if found.len() < limit && n > 0 {
        let k = keys[n - 1];
        lemma_finite_orders(store.ledger.address_signatures);
        lemma_not_after(keys, walk_start(i, address, slot), n - 1);
        if !(k.slot == crossing_slot && stops_at_crossing) && !(k.slot != crossing_slot && (k.slot
            < lowest_slot || k.primary_index != i || k.address != address || k.slot
            < first_available)) {
            let pair = (k.slot, k.signature);
            let next = if k.slot != crossing_slot && confirmed(store.ledger, unrooted, k.slot) {
                found.push(pair)
            } else {
                found
            };
            assert forall|j: int| 0 <= j < next.len() implies may_be_listed(
                store,
                unrooted,
                address,
                slot,
                #[trigger] next[j],
            ) by {
                if j < found.len() {
                    assert(next[j] == found[j]);
                } else {
                    Pubkey::lemma_irreflexive(address);
                    assert(keys.contains(keys[n - 1]));
                    assert(store.ledger.address_signatures.contains_key(k));
                    assert(k == AddressKey {
                        primary_index: i,
                        address,
                        slot: pair.0,
                        signature: pair.1,
                    });
                    assert(holds_key(store.ledger, i, address, pair));
                }
            }
            lemma_walk_may_be_listed(
                store,
                unrooted,
                n - 1,
                i,
                address,
                slot,
                crossing_slot,
                stops_at_crossing,
                lowest_slot,
                first_available,
                limit,
                next,
            );
        }
    }
}

proof fn lemma_slot_signatures_may_be_listed(
    store: BlockstoreView,
    unrooted: Seq<Slot>,
    address: Pubkey,
    slot: Slot,
    listed_slot: Slot,
)
    requires
        store.ledger.address_signatures.dom().finite(),
        listed_slot <= slot,
        listed_slot == slot || listed_slot == store.ledger.transaction_status_index[other_index(
            store.active_transaction_status_index,
        )].max_slot,
    ensures
        all_may_be_listed(
            store,
            unrooted,
            address,
            slot,
            slot_signatures(store, address, listed_slot).reverse(),
        ),
{
    let from = later(listed_slot as int, store.lowest_cleanup_slot + 1);
    let a = index_signatures(store.ledger, 0, address, from, listed_slot, false);
    let b = index_signatures(store.ledger, 1, address, from, listed_slot, false);
    lemma_index_signatures(store.ledger, 0, address, from, listed_slot, false);
    lemma_index_signatures(store.ledger, 1, address, from, listed_slot, false);
    lemma_merged_in_order(a, b);
    let pairs = slot_signatures(store, address, listed_slot);
    let reversed = pairs.reverse();
    assert forall|j: int| 0 <= j < reversed.len() implies may_be_listed(
        store,
        unrooted,
        address,
        slot,
        #[trigger] reversed[j],
    ) by {
        let pair = reversed[j];
        assert(pairs[pairs.len() - 1 - j] == pair);
        assert(pairs.contains(pair));
        assert(a.contains(pair) || b.contains(pair));
        assert(holds_key(store.ledger, 0, address, pair) || holds_key(
            store.ledger,
            1,
            address,
            pair,
        ));
    }
}

/// Every signature of a listing is of a transaction that names the address, in a slot that is
/// not above the one that the listing starts at, and that is confirmed, but for the slot that
/// it starts at and the one where the two indexes meet.
pub proof fn law_listed_signatures_name_the_address(
    store: BlockstoreView,
    address: Pubkey,
    highest_slot: Slot,
    before: Option<Signature>,
    until: Option<Signature>,
    limit: usize,
)
    requires
        store.ledger.address_signatures.dom().finite(),
    ensures
        ({
            let unrooted = confirmed_unrooted(store, highest_slot);
            address_listing(store, address, highest_slot, before, until, limit) matches Ok(infos)
                ==> (infos.len() > 0 ==> (listing_start(
                store,
                unrooted,
                highest_slot,
                before,
            ) matches Ok(Some(start)) && forall|j: int|
                0 <= j < infos.len() ==> may_be_listed(
                    store,
                    unrooted,
                    address,
                    start.0,
                    ((#[trigger] infos[j]).slot, infos[j].signature),
                )))
        }),
{
    let unrooted = confirmed_unrooted(store, highest_slot);
    let listing = address_listing(store, address, highest_slot, before, until, limit);
    if listing is Ok && listing->Ok_0.len() > 0 {
        let start = listing_start(store, unrooted, highest_slot, before)->Ok_0->0;
        let end = listing_end(store, unrooted, until)->Ok_0;
        let slot = start.0;
        let ledger = store.ledger;
        let keys = ordered_keys(ledger.address_signatures);
        let active = store.active_transaction_status_index;
        let other = other_index(active);
        let crossing = ledger.transaction_status_index[other].max_slot;
        let first = first_available_block(store);
        let all_own = slot_signatures(store, address, slot).reverse();
        let own = without_signatures(all_own, start.1);
        lemma_slot_signatures_may_be_listed(store, unrooted, address, slot, slot);
        lemma_kept_may_be_listed(store, unrooted, address, slot, all_own, start.1);
        lemma_walk_may_be_listed(
            store,
            unrooted,
            not_after(keys, walk_start(active, address, slot)),
            active,
            address,
            slot,
            crossing,
            true,
            end.0,
            first,
            limit,
            own,
        );
        let walked = walk_down(
            ledger,
            unrooted,
            keys,
            not_after(keys, walk_start(active, address, slot)),
            active,
            address,
            crossing,
            true,
            end.0,
            first,
            limit,
            own,
        );
        let crossed = if slot <= crossing {
            own
        } else if crossing >= end.0 {
            walked + slot_signatures(store, address, crossing).reverse()
        } else {
            walked
        };
        if slot > crossing {
            lemma_slot_signatures_may_be_listed(store, unrooted, address, slot, crossing);
        }
        lemma_walk_may_be_listed(
            store,
            unrooted,
            not_after(keys, walk_start(other, address, slot)),
            other,
            address,
            slot,
            crossing,
            false,
            end.0,
            first,
            limit,
            crossed,
        );
        let listed = listed_signatures(store, unrooted, address, slot, start.1, end.0, limit);
        lemma_kept_may_be_listed(store, unrooted, address, slot, listed, end.1);
        let kept = at_most(without_signatures(listed, end.1), limit);
        let infos = listing->Ok_0;
        assert forall|j: int| 0 <= j < infos.len() implies may_be_listed(
            store,
            unrooted,
            address,
            slot,
            ((#[trigger] infos[j]).slot, infos[j].signature),
        ) by {
            assert(kept[j] == without_signatures(listed, end.1)[j]);
        }
    }
}

proof fn lemma_kept_may_be_listed(
    store: BlockstoreView,
    unrooted: Seq<Slot>,
    address: Pubkey,
    slot: Slot,
    pairs: Seq<(Slot, Signature)>,
    excluded: Seq<Signature>,
)
    requires
        all_may_be_listed(store, unrooted, address, slot, pairs),
    ensures
        all_may_be_listed(store, unrooted, address, slot, without_signatures(pairs, excluded)),
{
    let kept = without_signatures(pairs, excluded);
    lemma_selected_members(pairs, |p: (Slot, Signature)| !excluded.contains(p.1));
    assert forall|j: int| 0 <= j < kept.len() implies may_be_listed(
        store,
        unrooted,
        address,
        slot,
        #[trigger] kept[j],
    ) by {
        let n = choose|n: int| 0 <= n < pairs.len() && pairs[n] == kept[j];
        assert(may_be_listed(store, unrooted, address, slot, pairs[n]));
    }
}

/// The slots that are given are those that a slot builds on above the last root, as the columns
/// tell: the slot itself, where something is known of it, and the slots that are reached from it
/// from parent to parent.
pub open spec fn lists_confirmed(store: BlockstoreView, highest_slot: Slot, slots: Seq<Slot>) -> bool {
    forall|s: Slot| #[trigger]
        slots.contains(s) <==> store.ledger.meta.contains_key(highest_slot) && is_ancestor(
            store.ledger.meta,
            store.last_root + 1,
            highest_slot,
            s,
        )
}

proof fn lemma_same_confirmed(
    store: BlockstoreView,
    a: Seq<Slot>,
    b: Seq<Slot>,
    i: u64,
    signature: Signature,
    slot: Slot,
)
    requires
        forall|s: Slot| #[trigger] a.contains(s) <==> b.contains(s),
        found_first(store, a, i, signature, slot),
    ensures
        found_first(store, b, i, signature, slot),
{
    assert(a.contains(slot) <==> b.contains(slot));
    assert forall|s: Slot| #[trigger] keeps_status(store, b, i, signature, s) implies slot
        <= s by {
        assert(a.contains(s) <==> b.contains(s));
        assert(keeps_status(store, a, i, signature, s));
    }
    if i == 1 {
        assert forall|s: Slot| !#[trigger] keeps_status(store, b, 0, signature, s) by {
            assert(a.contains(s) <==> b.contains(s));
            assert(!keeps_status(store, a, 0, signature, s));
        }
    }
}

/// What is told of a listed signature is what the columns hold: the error is that of the first
/// status of the transaction that is kept for a confirmed slot, so of the one kept for its slot
/// where that is the only one, and there is no error where there is no such status; the memo is
/// the one kept for the signature, and the time that of its slot.
pub proof fn law_listed_signatures_are_described(
    store: BlockstoreView,
    address: Pubkey,
    highest_slot: Slot,
    before: Option<Signature>,
    until: Option<Signature>,
    limit: usize,
    listing: Seq<ConfirmedTransactionStatusWithSignatureView>,
    x: int,
    confirmed_slots: Seq<Slot>,
)
    requires
        address_listing(store, address, highest_slot, before, until, limit) == Ok::<
            Seq<ConfirmedTransactionStatusWithSignatureView>,
            BlockstoreError,
        >(listing),
        0 <= x < listing.len(),
        store.ledger.meta.contains_key(highest_slot) ==> descends(
            store.ledger.meta,
            highest_slot,
            store.last_root + 1,
        ),
        lists_confirmed(store, highest_slot, confirmed_slots),
    ensures
        ({
            let item = listing[x];
            let ledger = store.ledger;
            &&& forall|i: u64, s: Slot| #[trigger]
                found_first(store, confirmed_slots, i, item.signature, s) ==> item.err
                    == match ledger.transaction_status[StatusKey {
                    primary_index: i,
                    signature: item.signature,
                    slot: s,
                }] {
                    Some(status) => status.err,
                    None => None,
                }
            &&& (forall|i: u64, s: Slot|
                i <= 1 ==> !#[trigger] keeps_status(store, confirmed_slots, i, item.signature, s))
                ==> item.err is None
            &&& item.memo is Some <==> ledger.transaction_memos.contains_key(item.signature)
            &&& item.memo is Some ==> item.memo->0 == ledger.transaction_memos[item.signature]
            &&& item.block_time is Some <==> ledger.blocktime.contains_key(item.slot)
            &&& item.block_time is Some ==> item.block_time->0 == ledger.blocktime[item.slot]
        }),
{
    let item = listing[x];
    let unrooted = confirmed_unrooted(store, highest_slot);
    law_confirmed_slots_are_ancestors(store, highest_slot);
    law_status_is_found(store, unrooted, item.signature);
    assert forall|s: Slot| #[trigger] confirmed_slots.contains(s) <==> unrooted.contains(s) by {
    }
    assert forall|i: u64, s: Slot| #[trigger]
        found_first(store, confirmed_slots, i, item.signature, s) implies item.err
        == match store.ledger.transaction_status[StatusKey {
        primary_index: i,
        signature: item.signature,
        slot: s,
    }] {
        Some(status) => status.err,
        None => None,
    } by {
        lemma_same_confirmed(store, confirmed_slots, unrooted, i, item.signature, s);
    }
    if forall|i: u64, s: Slot|
        i <= 1 ==> !#[trigger] keeps_status(store, confirmed_slots, i, item.signature, s) {
        assert forall|i: u64, s: Slot| i <= 1 implies !#[trigger] keeps_status(
            store,
            unrooted,
            i,
            item.signature,
            s,
        ) by {
            assert(confirmed_slots.contains(s) <==> unrooted.contains(s));
            assert(!keeps_status(store, confirmed_slots, i, item.signature, s));
        }
    }
}

/// No status of a transaction is kept for a confirmed slot that was not purged.
pub open spec fn nowhere_kept(
    store: BlockstoreView,
    confirmed_slots: Seq<Slot>,
    signature: Signature,
) -> bool {
    forall|i: u64, s: Slot|
        i <= 1 ==> !#[trigger] keeps_status(store, confirmed_slots, i, signature, s)
}

/// A listing that is to begin after a transaction that is not known is empty. One that is to end
/// before a transaction that is not known goes on to the end, as if no end had been given.
pub proof fn law_unknown_bounds_of_a_listing(
    store: BlockstoreView,
    address: Pubkey,
    highest_slot: Slot,
    before: Option<Signature>,
    signature: Signature,
    until: Option<Signature>,
    limit: usize,
    confirmed_slots: Seq<Slot>,
)
    requires
        store.ledger.meta.contains_key(highest_slot) ==> descends(
            store.ledger.meta,
            highest_slot,
            store.last_root + 1,
        ),
        lists_confirmed(store, highest_slot, confirmed_slots),
        nowhere_kept(store, confirmed_slots, signature),
    ensures
        address_listing(store, address, highest_slot, Some(signature), until, limit) matches Ok(
            listing,
        ) && listing.len() == 0,
        address_listing(store, address, highest_slot, before, Some(signature), limit)
            == address_listing(store, address, highest_slot, before, None, limit),
{
    let unrooted = confirmed_unrooted(store, highest_slot);
    law_confirmed_slots_are_ancestors(store, highest_slot);
    assert forall|s: Slot| #[trigger] unrooted.contains(s) <==> confirmed_slots.contains(s) by {
    }
    assert forall|i: u64, s: Slot| i <= 1 implies !#[trigger] keeps_status(
        store,
        unrooted,
        i,
        signature,
        s,
    ) by {
        assert(confirmed_slots.contains(s) <==> unrooted.contains(s));
        assert(!keeps_status(store, confirmed_slots, i, signature, s));
    }
    law_status_is_found(store, unrooted, signature);
}

/// The signatures of a block are given where the block is, and where it is refused, so are they,
/// for the same reason.
pub proof fn law_block_signatures_are_refused_with_it(store: BlockstoreView, slot: Slot)
    ensures
        block_signatures(store, slot) is Ok <==> complete_block(store, slot, false) is Ok,
        complete_block(store, slot, false) matches Err(e) ==> block_signatures(store, slot) == Err::<
            Seq<Signature>,
            BlockstoreError,
        >(BlockstoreError::Io(Box::new(e))),
        complete_block(store, slot, false) matches Ok(block) ==> (block_signatures(
            store,
            slot,
        ) matches Ok(signatures) && signatures.len() == block.transactions.len()),
{
    if complete_block(store, slot, false) is Ok {
        let transactions = complete_block(store, slot, false)->Ok_0.transactions;
        law_block_signatures_descend(transactions);
        let sorted = descending_signatures(transactions);
        let signatures = transactions.map_values(
            |t: TransactionWithStatusMetaView| t.transaction.signature,
        );
        sorted.to_multiset_ensures();
        signatures.to_multiset_ensures();
    }
}

} // verus!
