//! The pages of an address's listing, laid end to end, are the whole listing.

use vstd::prelude::*;
use crate::address_laws::{
    holds_key, in_order, law_block_signatures_descend, lemma_index_signatures,
    lemma_merged_in_order, lemma_pairs_ordered, lemma_selected_increasing, names_address,
};
use crate::addresses::{
    address_listing, at_most, block_signatures, index_signatures, key_in_range, later,
    listed_signatures, listing_end, listing_start, merged, not_after, other_index, pair_before,
    place_of, signature_info, signature_infos, slot_signatures, slots_and_signatures, starting_at,
    up_to, walk_down, walk_start, without_signatures,
};
use crate::blocks::complete_block;
use crate::blockstore::BlockstoreView;
use crate::column::{
    increasing, lemma_finite_orders, lemma_lower, lemma_split_exists, ordered_keys, selected,
    ColumnKey,
};
use crate::ledger::LedgerView;
use crate::records::{BlockstoreError, ConfirmedTransactionStatusWithSignatureView};
use crate::roots::{confirmed_unrooted, first_available_block, rooted};
use crate::slot_entries::cleaned_up;
use crate::transactions::{confirmed, transaction_status};
use crate::types::{zero_signature, AddressKey, Pubkey, Signature, Slot};

verus! {

/// Decreasing by slot and then by signature, with nothing twice.
pub open spec fn descending(s: Seq<(Slot, Signature)>) -> bool {
    forall|i: int, j: int| 0 <= i < j < s.len() ==> pair_before(#[trigger] s[j], #[trigger] s[i])
}

/// There is one way to put pairs in decreasing order.
proof fn lemma_descending_unique(a: Seq<(Slot, Signature)>, b: Seq<(Slot, Signature)>)
    requires
        descending(a),
        descending(b),
        forall|p: (Slot, Signature)| #[trigger] a.contains(p) <==> b.contains(p),
    ensures
        a == b,
    decreases a.len(),
{
    if a.len() == 0 {
        if b.len() > 0 {
            assert(b.contains(b[0]));
            assert(a.contains(b[0]));
        }
        assert(a =~= b);
    } else {
        assert(a.contains(a[0]));
        assert(b.contains(a[0]));
        let y = choose|y: int| 0 <= y < b.len() && b[y] == a[0];
        assert(b.contains(b[0]));
        assert(a.contains(b[0]));
        let x = choose|x: int| 0 <= x < a.len() && a[x] == b[0];
        assert(a[0] == b[0]) by {
            if x > 0 && y > 0 {
                assert(pair_before(a[x], a[0]));
                assert(pair_before(b[y], b[0]));
                lemma_pairs_ordered(a[0], b[0], a[0]);
            }
        }
        let ra = a.drop_first();
        let rb = b.drop_first();
        assert forall|i: int, j: int| 0 <= i < j < ra.len() implies pair_before(
            #[trigger] ra[j],
            #[trigger] ra[i],
        ) by {
            assert(pair_before(a[j + 1], a[i + 1]));
        }
        assert forall|i: int, j: int| 0 <= i < j < rb.len() implies pair_before(
            #[trigger] rb[j],
            #[trigger] rb[i],
        ) by {
            assert(pair_before(b[j + 1], b[i + 1]));
        }
        assert forall|p: (Slot, Signature)| #[trigger] ra.contains(p) <==> rb.contains(p) by {
            lemma_rest_contains(a, p);
            lemma_rest_contains(b, p);
            assert(a.contains(p) <==> b.contains(p));
        }
        lemma_descending_unique(ra, rb);
        assert(a =~= seq![a[0]] + ra);
        assert(b =~= seq![b[0]] + rb);
    }
}

proof fn lemma_rest_contains(s: Seq<(Slot, Signature)>, p: (Slot, Signature))
    requires
        descending(s),
        s.len() > 0,
    ensures
        s.drop_first().contains(p) <==> s.contains(p) && p != s[0],
{
    let rest = s.drop_first();
    if rest.contains(p) {
        let x = choose|x: int| 0 <= x < rest.len() && rest[x] == p;
        assert(s[x + 1] == p);
        assert(pair_before(s[x + 1], s[0]));
        lemma_pairs_ordered(p, p, p);
    }
    if s.contains(p) && p != s[0] {
        let x = choose|x: int| 0 <= x < s.len() && s[x] == p;
        assert(rest[x - 1] == p);
    }
}

/// Two decreasing sequences, the second below the first, one after the other.
proof fn lemma_joined(a: Seq<(Slot, Signature)>, b: Seq<(Slot, Signature)>)
    requires
        descending(a),
        descending(b),
        forall|x: int, y: int|
            0 <= x < a.len() && 0 <= y < b.len() ==> pair_before(#[trigger] b[y], #[trigger] a[x]),
    ensures
        descending(a + b),
        forall|p: (Slot, Signature)| #[trigger]
            (a + b).contains(p) <==> a.contains(p) || b.contains(p),
{
    let s = a + b;
    assert forall|i: int, j: int| 0 <= i < j < s.len() implies pair_before(
        #[trigger] s[j],
        #[trigger] s[i],
    ) by {
        if j < a.len() {
            assert(pair_before(a[j], a[i]));
        } else if i >= a.len() {
            assert(pair_before(b[j - a.len()], b[i - a.len()]));
        } else {
            assert(pair_before(b[j - a.len()], a[i]));
        }
    }
    assert forall|p: (Slot, Signature)| #[trigger] s.contains(p) <==> a.contains(p) || b.contains(
        p,
    ) by {
        if a.contains(p) {
            let x = choose|x: int| 0 <= x < a.len() && a[x] == p;
            assert(s[x] == p);
        }
        if b.contains(p) {
            let x = choose|x: int| 0 <= x < b.len() && b[x] == p;
            assert(s[a.len() + x] == p);
        }
        if s.contains(p) {
            let x = choose|x: int| 0 <= x < s.len() && s[x] == p;
            if x < a.len() {
                assert(a[x] == p);
            } else {
                assert(b[x - a.len()] == p);
            }
        }
    }
}

/// What is selected stays in decreasing order.
proof fn lemma_selected_descending(
    s: Seq<(Slot, Signature)>,
    keep: spec_fn((Slot, Signature)) -> bool,
)
    requires
        descending(s),
    ensures
        descending(selected(s, keep)),
        forall|p: (Slot, Signature)| #[trigger]
            selected(s, keep).contains(p) <==> s.contains(p) && keep(p),
    decreases s.len(),
{
    if s.len() > 0 {
        let rest = s.drop_last();
        let last = s.last();
        let n = s.len() - 1;
        assert forall|i: int, j: int| 0 <= i < j < rest.len() implies pair_before(
            #[trigger] rest[j],
            #[trigger] rest[i],
        ) by {
            assert(pair_before(s[j], s[i]));
        }
        lemma_selected_descending(rest, keep);
        let chosen = selected(rest, keep);
        let all = selected(s, keep);
        assert forall|i: int, j: int| 0 <= i < j < all.len() implies pair_before(
            #[trigger] all[j],
            #[trigger] all[i],
        ) by {
            if j < chosen.len() {
                assert(pair_before(chosen[j], chosen[i]));
            } else {
                assert(chosen.contains(chosen[i]));
                let x = choose|x: int| 0 <= x < rest.len() && rest[x] == chosen[i];
                assert(pair_before(s[n], s[x]));
            }
        }
        assert forall|p: (Slot, Signature)| #[trigger] all.contains(p) <==> s.contains(p) && keep(
            p,
        ) by {
            assert(chosen.contains(p) <==> rest.contains(p) && keep(p));
            if rest.contains(p) {
                let x = choose|x: int| 0 <= x < rest.len() && rest[x] == p;
                assert(s[x] == p);
            }
            if s.contains(p) && p != last {
                let x = choose|x: int| 0 <= x < s.len() && s[x] == p;
                assert(rest[x] == p);
            }
            assert(s[n] == last);
            if all.contains(p) {
                let x = choose|x: int| 0 <= x < all.len() && all[x] == p;
                if x < chosen.len() {
                    assert(chosen[x] == p);
                }
            }
            if chosen.contains(p) {
                let x = choose|x: int| 0 <= x < chosen.len() && chosen[x] == p;
                assert(all[x] == p);
            }
            if p == last && keep(p) {
                assert(all[all.len() - 1] == p);
            }
        }
    } else {
        assert(selected(s, keep) =~= Seq::empty());
    }
}

/// Increasing by slot and then by signature, with nothing twice.
spec fn ascending(s: Seq<(Slot, Signature)>) -> bool {
    forall|i: int, j: int| 0 <= i < j < s.len() ==> pair_before(#[trigger] s[i], #[trigger] s[j])
}

proof fn lemma_ascending_in_order(s: Seq<(Slot, Signature)>)
    requires
        ascending(s),
    ensures
        in_order(s),
{
    assert forall|i: int, j: int| 0 <= i < j < s.len() implies !pair_before(
        #[trigger] s[j],
        #[trigger] s[i],
    ) by {
        lemma_pairs_ordered(s[i], s[j], s[i]);
    }
}

/// Two ascending sequences with nothing in common, put together in order.
proof fn lemma_merged_ascending(a: Seq<(Slot, Signature)>, b: Seq<(Slot, Signature)>)
    requires
        ascending(a),
        ascending(b),
        forall|p: (Slot, Signature)| !(#[trigger] a.contains(p) && b.contains(p)),
    ensures
        ascending(merged(a, b)),
    decreases a.len() + b.len(),
{
    if a.len() > 0 && b.len() > 0 {
        let from_b = pair_before(b[0], a[0]);
        let head = if from_b {
            b[0]
        } else {
            a[0]
        };
        let (ra, rb) = if from_b {
            (a, b.drop_first())
        } else {
            (a.drop_first(), b)
        };
        assert forall|i: int, j: int| 0 <= i < j < ra.len() implies pair_before(
            #[trigger] ra[i],
            #[trigger] ra[j],
        ) by {
            if !from_b {
                assert(pair_before(a[i + 1], a[j + 1]));
            }
        }
        assert forall|i: int, j: int| 0 <= i < j < rb.len() implies pair_before(
            #[trigger] rb[i],
            #[trigger] rb[j],
        ) by {
            if from_b {
                assert(pair_before(b[i + 1], b[j + 1]));
            }
        }
        assert forall|p: (Slot, Signature)| !(#[trigger] ra.contains(p) && rb.contains(p)) by {
            if ra.contains(p) && rb.contains(p) {
                let x = choose|x: int| 0 <= x < ra.len() && ra[x] == p;
                let y = choose|y: int| 0 <= y < rb.len() && rb[y] == p;
                if from_b {
                    assert(b[y + 1] == p);
                } else {
                    assert(a[x + 1] == p);
                }
                assert(a.contains(p) && b.contains(p));
            }
        }
        lemma_merged_ascending(ra, rb);
        lemma_ascending_in_order(ra);
        lemma_ascending_in_order(rb);
        lemma_merged_in_order(ra, rb);
        let rest = merged(ra, rb);
        let all = merged(a, b);
        assert(all == seq![head] + rest);
        assert forall|p: (Slot, Signature)| #[trigger] rest.contains(p) implies pair_before(
            head,
            p,
        ) by {
            assert(ra.contains(p) || rb.contains(p));
            assert(a.contains(a[0]) && b.contains(b[0]));
            assert(a[0] != b[0]);
            lemma_pairs_ordered(a[0], b[0], p);
            lemma_pairs_ordered(b[0], a[0], p);
            if ra.contains(p) {
                let x = choose|x: int| 0 <= x < ra.len() && ra[x] == p;
                let at = if from_b {
                    x
                } else {
                    x + 1
                };
                assert(a[at] == p);
                if at > 0 {
                    assert(pair_before(a[0], a[at]));
                }
            } else {
                let y = choose|y: int| 0 <= y < rb.len() && rb[y] == p;
                let at = if from_b {
                    y + 1
                } else {
                    y
                };
                assert(b[at] == p);
                if at > 0 {
                    assert(pair_before(b[0], b[at]));
                }
            }
        }
        assert forall|i: int, j: int| 0 <= i < j < all.len() implies pair_before(
            #[trigger] all[i],
            #[trigger] all[j],
        ) by {
            assert(all[j] == rest[j - 1]);
            assert(rest.contains(rest[j - 1]));
            if i > 0 {
                assert(all[i] == rest[i - 1]);
            }
        }
    }
}

proof fn lemma_index_ascending(
    ledger: LedgerView,
    i: u64,
    address: Pubkey,
    from: int,
    to: Slot,
    rooted_only: bool,
)
    requires
        ledger.address_signatures.dom().finite(),
    ensures
        ascending(index_signatures(ledger, i, address, from, to, rooted_only)),
{
    let keys = ordered_keys(ledger.address_signatures);
    let keep = |k: AddressKey|
        key_in_range(k, i, address, from, to) && (rooted_only ==> rooted(ledger, k.slot));
    lemma_finite_orders(ledger.address_signatures);
    lemma_selected_increasing(keys, keep);
    let chosen = selected(keys, keep);
    let listed = index_signatures(ledger, i, address, from, to, rooted_only);
    assert(listed == slots_and_signatures(chosen));
    assert forall|x: int, y: int| 0 <= x < y < listed.len() implies pair_before(
        #[trigger] listed[x],
        #[trigger] listed[y],
    ) by {
        assert(chosen[x].before(chosen[y]));
        assert(chosen.contains(chosen[x]) && chosen.contains(chosen[y]));
        Pubkey::lemma_irreflexive(address);
    }
}

/// No pair of the address is under both indexes.
pub open spec fn under_one_index(ledger: LedgerView, address: Pubkey) -> bool {
    forall|p: (Slot, Signature)|
        !(#[trigger] holds_key(ledger, 0, address, p) && holds_key(ledger, 1, address, p))
}

/// The signatures of a slot, the last first.
spec fn slot_pairs(store: BlockstoreView, address: Pubkey, slot: Slot) -> Seq<(Slot, Signature)> {
    slot_signatures(store, address, slot).reverse()
}

proof fn lemma_slot_pairs(store: BlockstoreView, address: Pubkey, slot: Slot)
    requires
        store.ledger.address_signatures.dom().finite(),
        under_one_index(store.ledger, address),
    ensures
        descending(slot_pairs(store, address, slot)),
        forall|p: (Slot, Signature)| #[trigger]
            slot_pairs(store, address, slot).contains(p) <==> p.0 == slot && slot
                > store.lowest_cleanup_slot && names_address(store.ledger, address, p),
{
    let ledger = store.ledger;
    let from = later(slot as int, store.lowest_cleanup_slot + 1);
    let a = index_signatures(ledger, 0, address, from, slot, false);
    let b = index_signatures(ledger, 1, address, from, slot, false);
    lemma_index_signatures(ledger, 0, address, from, slot, false);
    lemma_index_signatures(ledger, 1, address, from, slot, false);
    lemma_index_ascending(ledger, 0, address, from, slot, false);
    lemma_index_ascending(ledger, 1, address, from, slot, false);
    assert forall|p: (Slot, Signature)| !(#[trigger] a.contains(p) && b.contains(p)) by {
        assert(!(holds_key(ledger, 0, address, p) && holds_key(ledger, 1, address, p)));
    }
    lemma_merged_ascending(a, b);
    lemma_merged_in_order(a, b);
    let s = slot_signatures(store, address, slot);
    let r = slot_pairs(store, address, slot);
    assert forall|i: int, j: int| 0 <= i < j < r.len() implies pair_before(
        #[trigger] r[j],
        #[trigger] r[i],
    ) by {
        assert(pair_before(s[s.len() - 1 - j], s[s.len() - 1 - i]));
    }
    assert forall|p: (Slot, Signature)| #[trigger] r.contains(p) <==> p.0 == slot && slot
        > store.lowest_cleanup_slot && names_address(ledger, address, p) by {
        assert(s.contains(p) <==> a.contains(p) || b.contains(p));
        if r.contains(p) {
            let x = choose|x: int| 0 <= x < r.len() && r[x] == p;
            assert(s[s.len() - 1 - x] == p);
        }
        if s.contains(p) {
            let x = choose|x: int| 0 <= x < s.len() && s[x] == p;
            assert(r[s.len() - 1 - x] == p);
        }
    }
}

/// All that a walk down the first `n` keys finds.
spec fn walk_all(
    ledger: LedgerView,
    unrooted: Seq<Slot>,
    keys: Seq<AddressKey>,
    n: int,
    i: u64,
    address: Pubkey,
    crossing_slot: Slot,
    stops_at_crossing: bool,
    lowest_slot: Slot,
    first_available: Slot,
) -> Seq<(Slot, Signature)>
    decreases n,
{
    if n <= 0 {
        Seq::empty()
    } else {
        let k = keys[n - 1];
        if (k.slot == crossing_slot && stops_at_crossing) || (k.slot != crossing_slot && (k.slot
            < lowest_slot || k.primary_index != i || k.address != address || k.slot
            < first_available)) {
            Seq::empty()
        } else {
            let rest = walk_all(
                ledger,
                unrooted,
                keys,
                n - 1,
                i,
                address,
                crossing_slot,
                stops_at_crossing,
                lowest_slot,
                first_available,
            );
            if k.slot != crossing_slot && confirmed(ledger, unrooted, k.slot) {
                seq![(k.slot, k.signature)] + rest
            } else {
                rest
            }
        }
    }
}

/// The first `limit` of a sequence.
spec fn capped(s: Seq<(Slot, Signature)>, limit: int) -> Seq<(Slot, Signature)> {
    if s.len() > limit {
        s.take(limit)
    } else {
        s
    }
}

/// A walk with a limit finds the first of all that there is to find.
proof fn lemma_walk_limited(
    ledger: LedgerView,
    unrooted: Seq<Slot>,
    keys: Seq<AddressKey>,
    n: int,
    i: u64,
    address: Pubkey,
    crossing_slot: Slot,
    stops_at_crossing: bool,
    lowest_slot: Slot,
    first_available: Slot,
    limit: usize,
    found: Seq<(Slot, Signature)>,
)
    ensures
        ({
            let walked = walk_down(
                ledger,
                unrooted,
                keys,
                n,
                i,
                address,
                crossing_slot,
                stops_at_crossing,
                lowest_slot,
                first_available,
                limit,
                found,
            );
            let all = found + walk_all(
                ledger,
                unrooted,
                keys,
                n,
                i,
                address,
                crossing_slot,
                stops_at_crossing,
                lowest_slot,
                first_available,
            );
            walked == if found.len() >= limit {
                found
            } else {
                capped(all, limit as int)
            }
        }),
    decreases n,
{
    if found.len() >= limit || n <= 0 {
        assert(found + Seq::<(Slot, Signature)>::empty() =~= found);
    } else {
        let k = keys[n - 1];
        let pair = (k.slot, k.signature);
        if (k.slot == crossing_slot && stops_at_crossing) || (k.slot != crossing_slot && (k.slot
            < lowest_slot || k.primary_index != i || k.address != address || k.slot
            < first_available)) {
            assert(found + Seq::<(Slot, Signature)>::empty() =~= found);
        } else {
            let next = if k.slot != crossing_slot && confirmed(ledger, unrooted, k.slot) {
                found.push(pair)
            } else {
                found
            };
            lemma_walk_limited(
                ledger,
                unrooted,
                keys,
                n - 1,
                i,
                address,
                crossing_slot,
                stops_at_crossing,
                lowest_slot,
                first_available,
                limit,
                next,
            );
            let rest = walk_all(
                ledger,
                unrooted,
                keys,
                n - 1,
                i,
                address,
                crossing_slot,
                stops_at_crossing,
                lowest_slot,
                first_available,
            );
            assert(found.push(pair) + rest =~= found + (seq![pair] + rest));
            if next.len() >= limit && next.len() > found.len() {
                assert(capped(next + rest, limit as int) =~= next);
            }
        }
    }
}

/// What a walk finds comes in decreasing order, and is of keys of the address that may be
/// listed. Nothing that may be listed is passed over as long as the walk does not stop.
proof fn lemma_walk_all(
    ledger: LedgerView,
    unrooted: Seq<Slot>,
    keys: Seq<AddressKey>,
    n: int,
    i: u64,
    address: Pubkey,
    crossing_slot: Slot,
    stops_at_crossing: bool,
    lowest_slot: Slot,
    first_available: Slot,
)
    requires
        increasing(keys),
        n <= keys.len(),
    ensures
        ({
            let w = walk_all(
                ledger,
                unrooted,
                keys,
                n,
                i,
                address,
                crossing_slot,
                stops_at_crossing,
                lowest_slot,
                first_available,
            );
            &&& descending(w)
            &&& forall|p: (Slot, Signature)| #[trigger]
                w.contains(p) ==> {
                    &&& p.0 != crossing_slot
                    &&& p.0 >= lowest_slot
                    &&& p.0 >= first_available
                    &&& confirmed(ledger, unrooted, p.0)
                    &&& exists|x: int|
                        0 <= x < n && #[trigger] keys[x] == (AddressKey {
                            primary_index: i,
                            address,
                            slot: p.0,
                            signature: p.1,
                        })
                }
            &&& forall|x: int|
                0 <= x < n && walk_reaches(
                    keys,
                    x,
                    n,
                    i,
                    address,
                    crossing_slot,
                    stops_at_crossing,
                ) && (#[trigger] keys[x]).slot != crossing_slot && keys[x].slot >= lowest_slot
                    && keys[x].slot >= first_available && confirmed(ledger, unrooted, keys[x].slot)
                    ==> w.contains((keys[x].slot, keys[x].signature))
        }),
    decreases n,
{
    let w = walk_all(
        ledger,
        unrooted,
        keys,
        n,
        i,
        address,
        crossing_slot,
        stops_at_crossing,
        lowest_slot,
        first_available,
    );
    if n > 0 {
        let k = keys[n - 1];
        let pair = (k.slot, k.signature);
        let stopped = (k.slot == crossing_slot && stops_at_crossing) || (k.slot != crossing_slot
            && (k.slot < lowest_slot || k.primary_index != i || k.address != address || k.slot
            < first_available));
        lemma_walk_all(
            ledger,
            unrooted,
            keys,
            n - 1,
            i,
            address,
            crossing_slot,
            stops_at_crossing,
            lowest_slot,
            first_available,
        );
        let rest = walk_all(
            ledger,
            unrooted,
            keys,
            n - 1,
            i,
            address,
            crossing_slot,
            stops_at_crossing,
            lowest_slot,
            first_available,
        );
        if !stopped {
            let pushed = k.slot != crossing_slot && confirmed(ledger, unrooted, k.slot);
            if pushed {
                assert forall|a: int, b: int| 0 <= a < b < w.len() implies pair_before(
                    #[trigger] w[b],
                    #[trigger] w[a],
                ) by {
                    assert(w[b] == rest[b - 1]);
                    assert(rest.contains(rest[b - 1]));
                    if a == 0 {
                        let x = choose|x: int|
                            0 <= x < n - 1 && #[trigger] keys[x] == (AddressKey {
                                primary_index: i,
                                address,
                                slot: w[b].0,
                                signature: w[b].1,
                            });
                        assert(keys[x].before(keys[n - 1]));
                        Pubkey::lemma_irreflexive(address);
                    } else {
                        assert(w[a] == rest[a - 1]);
                    }
                }
            }
            assert forall|p: (Slot, Signature)| #[trigger] w.contains(p) implies {
                &&& p.0 != crossing_slot
                &&& p.0 >= lowest_slot
                &&& p.0 >= first_available
                &&& confirmed(ledger, unrooted, p.0)
                &&& exists|x: int|
                    0 <= x < n && #[trigger] keys[x] == (AddressKey {
                        primary_index: i,
                        address,
                        slot: p.0,
                        signature: p.1,
                    })
            } by {
                let y = choose|y: int| 0 <= y < w.len() && w[y] == p;
                if pushed && y == 0 {
                    assert(keys[n - 1] == AddressKey {
                        primary_index: i,
                        address,
                        slot: p.0,
                        signature: p.1,
                    });
                } else {
                    let z = if pushed {
                        y - 1
                    } else {
                        y
                    };
                    assert(rest[z] == p);
                    assert(rest.contains(p));
                }
            }
            assert forall|x: int|
                0 <= x < n && walk_reaches(
                    keys,
                    x,
                    n,
                    i,
                    address,
                    crossing_slot,
                    stops_at_crossing,
                ) && (#[trigger] keys[x]).slot != crossing_slot && keys[x].slot >= lowest_slot
                    && keys[x].slot >= first_available && confirmed(
                    ledger,
                    unrooted,
                    keys[x].slot,
                ) implies w.contains((keys[x].slot, keys[x].signature)) by {
                let p = (keys[x].slot, keys[x].signature);
                if x == n - 1 {
                    assert(w[0] == p);
                } else {
                    assert(walk_reaches(
                        keys,
                        x,
                        n - 1,
                        i,
                        address,
                        crossing_slot,
                        stops_at_crossing,
                    ));
                    assert(rest.contains(p));
                    let y = choose|y: int| 0 <= y < rest.len() && rest[y] == p;
                    if pushed {
                        assert(w[y + 1] == p);
                    }
                }
            }
        } else {
            assert forall|x: int|
                0 <= x < n && walk_reaches(
                    keys,
                    x,
                    n,
                    i,
                    address,
                    crossing_slot,
                    stops_at_crossing,
                ) && (#[trigger] keys[x]).slot != crossing_slot && keys[x].slot >= lowest_slot
                    && keys[x].slot >= first_available && confirmed(
                    ledger,
                    unrooted,
                    keys[x].slot,
                ) implies w.contains((keys[x].slot, keys[x].signature)) by {
                assert(reached(keys[n - 1], i, address, crossing_slot, stops_at_crossing));
                if x < n - 1 {
                    assert(keys[x].before(keys[n - 1]));
                    assert(reached(keys[x], i, address, crossing_slot, stops_at_crossing));
                    Pubkey::lemma_irreflexive(address);
                }
            }
        }
    }
}

/// A walk that comes to a key goes on: it is of the address, and not where the walk stops.
spec fn reached(
    k: AddressKey,
    i: u64,
    address: Pubkey,
    crossing_slot: Slot,
    stops_at_crossing: bool,
) -> bool {
    &&& k.primary_index == i
    &&& k.address == address
    &&& k.slot == crossing_slot ==> !stops_at_crossing
}

/// A walk down from position `n` comes to position `x`.
spec fn walk_reaches(
    keys: Seq<AddressKey>,
    x: int,
    n: int,
    i: u64,
    address: Pubkey,
    crossing_slot: Slot,
    stops_at_crossing: bool,
) -> bool {
    forall|y: int|
        x <= y < n ==> reached(#[trigger] keys[y], i, address, crossing_slot, stops_at_crossing)
}

/// The slot where the two indexes meet.
pub open spec fn meeting_slot(store: BlockstoreView) -> Slot {
    store.ledger.transaction_status_index[other_index(
        store.active_transaction_status_index,
    )].max_slot
}

/// The transactions of a slot may be listed from `highest_slot` down: the slot was not purged and
/// is confirmed; and it is the first that is available or above, but for the slot where the
/// indexes meet and that where the listing starts, which may also be below.
pub open spec fn may_list(store: BlockstoreView, highest_slot: Slot, slot: Slot) -> bool {
    &&& slot > store.lowest_cleanup_slot
    &&& confirmed(store.ledger, confirmed_unrooted(store, highest_slot), slot)
    &&& slot >= first_available_block(store) || slot == meeting_slot(store) || slot == highest_slot
}

/// A pair that belongs into the listing of an address from `highest_slot` down: its transaction
/// names the address, and its slot may be listed.
pub open spec fn wanted(
    store: BlockstoreView,
    address: Pubkey,
    highest_slot: Slot,
    p: (Slot, Signature),
) -> bool {
    &&& names_address(store.ledger, address, p)
    &&& p.0 <= highest_slot
    &&& may_list(store, highest_slot, p.0)
}

/// A listed signature can be found again: its status names its slot, and the block of that slot
/// can be read and has, of the listed signatures, those of the slot.
pub open spec fn located(
    store: BlockstoreView,
    address: Pubkey,
    highest_slot: Slot,
    p: (Slot, Signature),
) -> bool {
    &&& transaction_status(store, p.1, confirmed_unrooted(store, highest_slot)) matches Some(found)
        && found.0 == p.0
    &&& block_signatures(store, p.0) matches Ok(signatures) && forall|q: (Slot, Signature)|
        #[trigger]
        wanted(store, address, highest_slot, q) ==> (signatures.contains(q.1) <==> q.0 == p.0)
}

/// The listing of an address can be paged through: its transactions were written in the order
/// of their slots, each under one index, so that the two indexes meet in one slot; the confirmed
/// slots from the first that is available on were not purged, and no signature in them is zero;
/// the slots that the listing starts at and where the indexes meet are confirmed, where they
/// were not purged; and every listed signature can be found again. Transactions of purged slots,
/// and of slots below the first that is available, may be there: they are not listed.
pub open spec fn pageable(store: BlockstoreView, address: Pubkey, highest_slot: Slot) -> bool {
    let ledger = store.ledger;
    let active = store.active_transaction_status_index;
    let meeting = meeting_slot(store);
    &&& ledger.address_signatures.dom().finite()
    &&& active <= 1
    &&& under_one_index(ledger, address)
    &&& forall|p: (Slot, Signature)| #[trigger]
        holds_key(ledger, active, address, p) ==> p.0 >= meeting
    &&& forall|p: (Slot, Signature)| #[trigger]
        holds_key(ledger, other_index(active), address, p) ==> p.0 <= meeting
    &&& forall|p: (Slot, Signature)| #[trigger]
        names_address(ledger, address, p) && p.0 <= highest_slot ==> {
            let is_confirmed = confirmed(ledger, confirmed_unrooted(store, highest_slot), p.0);
            &&& p.0 >= first_available_block(store) && is_confirmed ==> p.0
                > store.lowest_cleanup_slot && p.1 != zero_signature()
            &&& (p.0 == highest_slot || p.0 == meeting) && p.0 > store.lowest_cleanup_slot
                ==> is_confirmed
        }
    &&& forall|p: (Slot, Signature)| #[trigger]
        wanted(store, address, highest_slot, p) ==> located(store, address, highest_slot, p)
}

/// What a walk down one index from below `slot` finds.
spec fn walk_from(
    store: BlockstoreView,
    address: Pubkey,
    highest_slot: Slot,
    i: u64,
    slot: Slot,
    stops_at_meeting: bool,
    lowest_slot: Slot,
) -> Seq<(Slot, Signature)> {
    let keys = ordered_keys(store.ledger.address_signatures);
    walk_all(
        store.ledger,
        confirmed_unrooted(store, highest_slot),
        keys,
        not_after(keys, walk_start(i, address, slot)),
        i,
        address,
        meeting_slot(store),
        stops_at_meeting,
        lowest_slot,
        first_available_block(store),
    )
}

/// How many keys are not after `k`, and which.
proof fn lemma_not_after_exact(keys: Seq<AddressKey>, k: AddressKey)
    requires
        increasing(keys),
    ensures
        0 <= not_after(keys, k) <= keys.len(),
        forall|x: int|
            0 <= x < keys.len() ==> (x < not_after(keys, k) <==> (#[trigger] keys[x]).before(k)
                || keys[x] == k),
{
    let p = lemma_split_exists(keys, k);
    lemma_lower(keys, k, p);
    AddressKey::lemma_irreflexive(k);
    if keys.contains(k) {
        let n = choose|n: int| 0 <= n < keys.len() && keys[n] == k;
        assert(n >= p);
        if n > p {
            assert(keys[p].before(keys[n]));
            assert(!keys[p].before(k));
        }
    }
    assert forall|x: int| 0 <= x < keys.len() implies (x < not_after(keys, k) <==> (
    #[trigger] keys[x]).before(k) || keys[x] == k) by {
        if keys[x] == k {
            assert(keys.contains(k));
        }
        if keys.contains(k) && x == p {
            let n = choose|n: int| 0 <= n < keys.len() && keys[n] == k;
            assert(n == p);
        }
    }
}

proof fn lemma_walk_from(
    store: BlockstoreView,
    address: Pubkey,
    highest_slot: Slot,
    i: u64,
    slot: Slot,
    stops_at_meeting: bool,
    lowest_slot: Slot,
)
    requires
        pageable(store, address, highest_slot),
        i <= 1,
        slot <= highest_slot,
        stops_at_meeting ==> i == store.active_transaction_status_index,
    ensures
        ({
            let w = walk_from(
                store,
                address,
                highest_slot,
                i,
                slot,
                stops_at_meeting,
                lowest_slot,
            );
            &&& descending(w)
            &&& forall|p: (Slot, Signature)| #[trigger]
                w.contains(p) <==> holds_key(store.ledger, i, address, p) && p.0 < slot && p.0
                    != meeting_slot(store) && p.0 >= lowest_slot && p.0 >= first_available_block(
                    store,
                ) && confirmed(store.ledger, confirmed_unrooted(store, highest_slot), p.0)
        }),
{
    let ledger = store.ledger;
    let keys = ordered_keys(ledger.address_signatures);
    let unrooted = confirmed_unrooted(store, highest_slot);
    let meeting = meeting_slot(store);
    let first = first_available_block(store);
    let from = walk_start(i, address, slot);
    let n = not_after(keys, from);
    lemma_finite_orders(ledger.address_signatures);
    lemma_not_after_exact(keys, from);
    lemma_walk_all(
        ledger,
        unrooted,
        keys,
        n,
        i,
        address,
        meeting,
        stops_at_meeting,
        lowest_slot,
        first,
    );
    let w = walk_from(store, address, highest_slot, i, slot, stops_at_meeting, lowest_slot);
    assert forall|p: (Slot, Signature)| #[trigger] w.contains(p) <==> holds_key(
        ledger,
        i,
        address,
        p,
    ) && p.0 < slot && p.0 != meeting && p.0 >= lowest_slot && p.0 >= first && confirmed(
        ledger,
        unrooted,
        p.0,
    ) by {
        let key = AddressKey { primary_index: i, address, slot: p.0, signature: p.1 };
        Pubkey::lemma_irreflexive(address);
        if w.contains(p) {
            let x = choose|x: int| 0 <= x < n && #[trigger] keys[x] == key;
            assert(keys.contains(keys[x]));
            assert(holds_key(ledger, i, address, p));
            assert(keys[x].before(from) || keys[x] == from);
            assert(names_address(ledger, address, p));
        }
        if holds_key(ledger, i, address, p) && p.0 < slot && p.0 != meeting && p.0 >= lowest_slot
            && p.0 >= first && confirmed(ledger, unrooted, p.0) {
            assert(names_address(ledger, address, p));
            assert(keys.contains(key));
            let x = choose|x: int| 0 <= x < keys.len() && keys[x] == key;
            assert(keys[x].before(from));
            assert(x < n);
            assert forall|y: int| x <= y < n implies reached(
                #[trigger] keys[y],
                i,
                address,
                meeting,
                stops_at_meeting,
            ) by {
                assert(keys[y].before(from) || keys[y] == from);
                if y > x {
                    assert(keys[x].before(keys[y]));
                }
                lemma_between(keys[x], keys[y], from);
            }
            assert(walk_reaches(keys, x, n, i, address, meeting, stops_at_meeting));
        }
    }
}

/// A key between two keys of an address is one of that address.
proof fn lemma_between(a: AddressKey, b: AddressKey, c: AddressKey)
    requires
        a == b || a.before(b),
        b == c || b.before(c),
        a.primary_index == c.primary_index,
        a.address == c.address,
    ensures
        b.primary_index == a.primary_index,
        b.address == a.address,
        a.slot <= b.slot <= c.slot,
{
    Pubkey::lemma_irreflexive(a.address);
    if a.address.before(b.address) && b.address.before(a.address) {
        Pubkey::lemma_transitive(a.address, b.address, a.address);
    }
}

/// The whole listing from `slot` down to `lowest_slot`, without the excluded signatures of
/// `slot`.
spec fn whole(
    store: BlockstoreView,
    address: Pubkey,
    highest_slot: Slot,
    slot: Slot,
    excluded: Seq<Signature>,
    lowest_slot: Slot,
) -> Seq<(Slot, Signature)> {
    (upper(store, address, highest_slot, slot, excluded, lowest_slot) + middle(
        store,
        address,
        slot,
        lowest_slot,
    )) + lower_part(store, address, highest_slot, slot, lowest_slot)
}

/// The part of a listing above the slot where the indexes meet, or that of its first slot.
spec fn upper(
    store: BlockstoreView,
    address: Pubkey,
    highest_slot: Slot,
    slot: Slot,
    excluded: Seq<Signature>,
    lowest_slot: Slot,
) -> Seq<(Slot, Signature)> {
    let own = without_signatures(slot_pairs(store, address, slot), excluded);
    if slot > meeting_slot(store) {
        own + walk_from(
            store,
            address,
            highest_slot,
            store.active_transaction_status_index,
            slot,
            true,
            lowest_slot,
        )
    } else {
        own
    }
}

/// The part of a listing in the slot where the indexes meet, where that is below its first.
spec fn middle(store: BlockstoreView, address: Pubkey, slot: Slot, lowest_slot: Slot) -> Seq<
    (Slot, Signature),
> {
    if slot > meeting_slot(store) && meeting_slot(store) >= lowest_slot {
        slot_pairs(store, address, meeting_slot(store))
    } else {
        Seq::empty()
    }
}

/// The part of a listing below.
spec fn lower_part(
    store: BlockstoreView,
    address: Pubkey,
    highest_slot: Slot,
    slot: Slot,
    lowest_slot: Slot,
) -> Seq<(Slot, Signature)> {
    walk_from(
        store,
        address,
        highest_slot,
        other_index(store.active_transaction_status_index),
        slot,
        false,
        lowest_slot,
    )
}

/// The pair belongs into the listing from `slot` down to `lowest_slot`.
spec fn in_whole(
    store: BlockstoreView,
    address: Pubkey,
    highest_slot: Slot,
    slot: Slot,
    excluded: Seq<Signature>,
    lowest_slot: Slot,
    p: (Slot, Signature),
) -> bool {
    &&& wanted(store, address, highest_slot, p)
    &&& lowest_slot <= p.0 <= slot
    &&& !(p.0 == slot && excluded.contains(p.1))
}

proof fn lemma_upper(
    store: BlockstoreView,
    address: Pubkey,
    highest_slot: Slot,
    slot: Slot,
    excluded: Seq<Signature>,
    lowest_slot: Slot,
)
    requires
        pageable(store, address, highest_slot),
        lowest_slot <= slot <= highest_slot,
        slot == highest_slot || may_list(store, highest_slot, slot),
    ensures
        ({
            let u = upper(store, address, highest_slot, slot, excluded, lowest_slot);
            &&& descending(u)
            &&& forall|p: (Slot, Signature)| #[trigger]
                u.contains(p) <==> in_whole(
                    store,
                    address,
                    highest_slot,
                    slot,
                    excluded,
                    lowest_slot,
                    p,
                ) && (p.0 == slot || p.0 > meeting_slot(store))
        }),
{
    let ledger = store.ledger;
    let meeting = meeting_slot(store);
    let active = store.active_transaction_status_index;
    let all_own = slot_pairs(store, address, slot);
    let keep = |p: (Slot, Signature)| !excluded.contains(p.1);
    let own = without_signatures(all_own, excluded);
    lemma_slot_pairs(store, address, slot);
    lemma_selected_descending(all_own, keep);
    let u = upper(store, address, highest_slot, slot, excluded, lowest_slot);
    if slot > meeting {
        let w = walk_from(store, address, highest_slot, active, slot, true, lowest_slot);
        lemma_walk_from(store, address, highest_slot, active, slot, true, lowest_slot);
        assert forall|x: int, y: int| 0 <= x < own.len() && 0 <= y < w.len() implies pair_before(
            #[trigger] w[y],
            #[trigger] own[x],
        ) by {
            assert(w.contains(w[y]));
            assert(own.contains(own[x]));
        }
        lemma_joined(own, w);
    }
    assert forall|p: (Slot, Signature)| #[trigger] u.contains(p) <==> in_whole(
        store,
        address,
        highest_slot,
        slot,
        excluded,
        lowest_slot,
        p,
    ) && (p.0 == slot || p.0 > meeting) by {
        assert(own.contains(p) <==> all_own.contains(p) && keep(p));
        lemma_under(store, address, highest_slot, p);
    }
}

/// Above the slot where the indexes meet all is under the active index, and below it all is
/// under the other.
proof fn lemma_under(
    store: BlockstoreView,
    address: Pubkey,
    highest_slot: Slot,
    p: (Slot, Signature),
)
    requires
        pageable(store, address, highest_slot),
    ensures
        names_address(store.ledger, address, p) && p.0 > meeting_slot(store) ==> holds_key(
            store.ledger,
            store.active_transaction_status_index,
            address,
            p,
        ),
        names_address(store.ledger, address, p) && p.0 < meeting_slot(store) ==> holds_key(
            store.ledger,
            other_index(store.active_transaction_status_index),
            address,
            p,
        ),
        holds_key(store.ledger, store.active_transaction_status_index, address, p) ==> p.0
            >= meeting_slot(store) && names_address(store.ledger, address, p),
        holds_key(store.ledger, other_index(store.active_transaction_status_index), address, p)
            ==> p.0 <= meeting_slot(store) && names_address(store.ledger, address, p),
{
    let active = store.active_transaction_status_index;
    let other = other_index(active);
    assert(names_address(store.ledger, address, p) <==> holds_key(
        store.ledger,
        active,
        address,
        p,
    ) || holds_key(store.ledger, other, address, p));
}

proof fn lemma_whole(
    store: BlockstoreView,
    address: Pubkey,
    highest_slot: Slot,
    slot: Slot,
    excluded: Seq<Signature>,
    lowest_slot: Slot,
)
    requires
        pageable(store, address, highest_slot),
        lowest_slot <= slot <= highest_slot,
        slot == highest_slot || may_list(store, highest_slot, slot),
    ensures
        ({
            let all = whole(store, address, highest_slot, slot, excluded, lowest_slot);
            &&& descending(all)
            &&& forall|p: (Slot, Signature)| #[trigger]
                all.contains(p) <==> in_whole(
                    store,
                    address,
                    highest_slot,
                    slot,
                    excluded,
                    lowest_slot,
                    p,
                )
        }),
{
    let meeting = meeting_slot(store);
    let other = other_index(store.active_transaction_status_index);
    let u = upper(store, address, highest_slot, slot, excluded, lowest_slot);
    let m = middle(store, address, slot, lowest_slot);
    let b = lower_part(store, address, highest_slot, slot, lowest_slot);
    lemma_upper(store, address, highest_slot, slot, excluded, lowest_slot);
    lemma_slot_pairs(store, address, meeting);
    lemma_walk_from(store, address, highest_slot, other, slot, false, lowest_slot);
    assert(descending(m));
    assert forall|x: int, y: int| 0 <= x < u.len() && 0 <= y < m.len() implies pair_before(
        #[trigger] m[y],
        #[trigger] u[x],
    ) by {
        assert(m.contains(m[y]));
        assert(u.contains(u[x]));
    }
    lemma_joined(u, m);
    let um = u + m;
    assert forall|x: int, y: int| 0 <= x < um.len() && 0 <= y < b.len() implies pair_before(
        #[trigger] b[y],
        #[trigger] um[x],
    ) by {
        assert(um.contains(um[x]));
        assert(b.contains(b[y]));
        lemma_under(store, address, highest_slot, b[y]);
    }
    lemma_joined(um, b);
    let all = whole(store, address, highest_slot, slot, excluded, lowest_slot);
    assert forall|p: (Slot, Signature)| #[trigger] all.contains(p) <==> in_whole(
        store,
        address,
        highest_slot,
        slot,
        excluded,
        lowest_slot,
        p,
    ) by {
        assert(all.contains(p) <==> um.contains(p) || b.contains(p));
        assert(um.contains(p) <==> u.contains(p) || m.contains(p));
        lemma_under(store, address, highest_slot, p);
        if !(slot > meeting && meeting >= lowest_slot) {
            assert(m =~= Seq::empty());
        }
    }
}

/// A listing with a limit is the beginning of the whole listing, up to the limit at least; but
/// that, where the limit is reached above the slot where the indexes meet, the signatures of
/// that slot follow.
spec fn begins(
    store: BlockstoreView,
    address: Pubkey,
    highest_slot: Slot,
    slot: Slot,
    excluded: Seq<Signature>,
    lowest_slot: Slot,
    limit: usize,
    listed: Seq<(Slot, Signature)>,
) -> bool {
    let all = whole(store, address, highest_slot, slot, excluded, lowest_slot);
    ||| {
        &&& listed.len() <= all.len()
        &&& listed == all.take(listed.len() as int)
        &&& listed.len() >= limit || listed.len() == all.len()
    }
    ||| {
        &&& lowest_slot <= meeting_slot(store) < slot
        &&& limit <= upper(store, address, highest_slot, slot, excluded, lowest_slot).len()
        &&& listed.len() >= limit
        &&& listed.take(limit as int) == all.take(limit as int)
    }
}

proof fn lemma_listed(
    store: BlockstoreView,
    address: Pubkey,
    highest_slot: Slot,
    slot: Slot,
    excluded: Seq<Signature>,
    lowest_slot: Slot,
    limit: usize,
)
    ensures
        begins(
            store,
            address,
            highest_slot,
            slot,
            excluded,
            lowest_slot,
            limit,
            listed_signatures(
                store,
                confirmed_unrooted(store, highest_slot),
                address,
                slot,
                excluded,
                lowest_slot,
                limit,
            ),
        ),
{
    let ledger = store.ledger;
    let keys = ordered_keys(ledger.address_signatures);
    let unrooted = confirmed_unrooted(store, highest_slot);
    let active = store.active_transaction_status_index;
    let other = other_index(active);
    let meeting = meeting_slot(store);
    let first = first_available_block(store);
    let own = without_signatures(slot_pairs(store, address, slot), excluded);
    let a = walk_from(store, address, highest_slot, active, slot, true, lowest_slot);
    let m = middle(store, address, slot, lowest_slot);
    let b = lower_part(store, address, highest_slot, slot, lowest_slot);
    let u = upper(store, address, highest_slot, slot, excluded, lowest_slot);
    let all = whole(store, address, highest_slot, slot, excluded, lowest_slot);
    lemma_walk_limited(
        ledger,
        unrooted,
        keys,
        not_after(keys, walk_start(active, address, slot)),
        active,
        address,
        meeting,
        true,
        lowest_slot,
        first,
        limit,
        own,
    );
    let walked = if own.len() >= limit {
        own
    } else {
        capped(own + a, limit as int)
    };
    let crossed = if slot <= meeting {
        own
    } else if meeting >= lowest_slot {
        walked + m
    } else {
        walked
    };
    lemma_walk_limited(
        ledger,
        unrooted,
        keys,
        not_after(keys, walk_start(other, address, slot)),
        other,
        address,
        meeting,
        false,
        lowest_slot,
        first,
        limit,
        crossed,
    );
    let listed = listed_signatures(
        store,
        unrooted,
        address,
        slot,
        excluded,
        lowest_slot,
        limit,
    );
    assert(listed == if crossed.len() >= limit {
        crossed
    } else {
        capped(crossed + b, limit as int)
    });
    if slot > meeting && walked.len() >= limit {
        assert(u == own + a);
        assert(walked =~= u.take(walked.len() as int));
        assert(walked.take(limit as int) =~= all.take(limit as int));
        if meeting >= lowest_slot {
            assert(listed == walked + m);
            assert(listed.take(limit as int) =~= all.take(limit as int));
        } else {
            assert(m =~= Seq::empty());
            assert(listed =~= all.take(listed.len() as int));
        }
    } else {
        if slot > meeting {
            assert(walked =~= u);
        }
        assert(crossed =~= u + m);
        assert(all == (u + m) + b);
        assert(listed =~= all.take(listed.len() as int));
    }
}

/// Selecting from a sequence is selecting from its parts.
proof fn lemma_selected_joined(
    a: Seq<(Slot, Signature)>,
    b: Seq<(Slot, Signature)>,
    keep: spec_fn((Slot, Signature)) -> bool,
)
    ensures
        selected(a + b, keep) == selected(a, keep) + selected(b, keep),
    decreases b.len(),
{
    if b.len() == 0 {
        assert(a + b =~= a);
        assert(selected(a, keep) + selected(b, keep) =~= selected(a, keep));
    } else {
        let rest = b.drop_last();
        assert((a + b).drop_last() =~= a + rest);
        assert((a + b).last() == b.last());
        lemma_selected_joined(a, rest, keep);
        assert(selected(a + b, keep) =~= selected(a, keep) + selected(b, keep));
    }
}

/// Selecting from a sequence of which all from position `g` on, and nothing before, goes.
proof fn lemma_selected_prefix(
    s: Seq<(Slot, Signature)>,
    keep: spec_fn((Slot, Signature)) -> bool,
    g: int,
)
    requires
        0 <= g <= s.len(),
        forall|x: int| 0 <= x < s.len() ==> (keep(#[trigger] s[x]) <==> x < g),
    ensures
        selected(s, keep) == s.take(g),
    decreases s.len(),
{
    if s.len() == 0 {
        assert(s.take(g) =~= Seq::empty());
    } else {
        let rest = s.drop_last();
        let n = s.len() - 1;
        assert(keep(s[n]) <==> n < g);
        let h = if g <= n {
            g
        } else {
            n
        };
        assert forall|x: int| 0 <= x < rest.len() implies (keep(#[trigger] rest[x]) <==> x < h) by {
            assert(rest[x] == s[x]);
        }
        lemma_selected_prefix(rest, keep, h);
        assert(selected(s, keep) =~= s.take(g));
    }
}

/// The first place of a signature.
proof fn lemma_place_of(s: Seq<Signature>, x: Signature)
    ensures
        0 <= place_of(s, x) <= s.len(),
        s.contains(x) <==> place_of(s, x) < s.len(),
        s.contains(x) ==> s[place_of(s, x)] == x,
    decreases s.len(),
{
    if s.len() > 0 && s[0] != x {
        let rest = s.drop_first();
        lemma_place_of(rest, x);
        if s.contains(x) {
            let n = choose|n: int| 0 <= n < s.len() && s[n] == x;
            assert(rest[n - 1] == x);
        }
        if rest.contains(x) {
            let n = choose|n: int| 0 <= n < rest.len() && rest[n] == x;
            assert(s[n + 1] == x);
        }
    } else if s.len() > 0 {
        assert(s.contains(s[0]));
    }
}

/// The signatures of a block up to one of them are those that are not before it, and those from
/// it on are those that are not after it.
proof fn lemma_parts(store: BlockstoreView, slot: Slot, x: Signature)
    requires
        block_signatures(store, slot) is Ok,
        block_signatures(store, slot)->Ok_0.contains(x),
    ensures
        ({
            let signatures = block_signatures(store, slot)->Ok_0;
            &&& forall|y: Signature|
                signatures.contains(y) ==> (#[trigger] up_to(signatures, x).contains(y)
                    <==> !y.before(x))
            &&& forall|y: Signature| #[trigger]
                starting_at(signatures, x).contains(y) <==> signatures.contains(y) && !x.before(y)
        }),
{
    let s = block_signatures(store, slot)->Ok_0;
    law_block_signatures_descend(complete_block(store, slot, false)->Ok_0.transactions);
    lemma_place_of(s, x);
    let n = place_of(s, x);
    let head = up_to(s, x);
    let tail = starting_at(s, x);
    Signature::lemma_irreflexive(x);
    assert forall|y: Signature| s.contains(y) implies (#[trigger] head.contains(y) <==> !y.before(
        x,
    )) by {
        if head.contains(y) {
            let m = choose|m: int| 0 <= m < head.len() && head[m] == y;
            assert(s[m] == y);
            if m < n && y.before(x) {
                assert(!s[m].before(s[n]));
            }
        }
        if !y.before(x) {
            if y == x {
                assert(head[n] == y);
            } else {
                Signature::lemma_total(x, y);
                let m = choose|m: int| 0 <= m < s.len() && s[m] == y;
                if m > n {
                    assert(!s[n].before(s[m]));
                }
                assert(head[m] == y);
            }
        }
    }
    assert forall|y: Signature| #[trigger] tail.contains(y) <==> s.contains(y) && !x.before(y) by {
        if tail.contains(y) {
            let m = choose|m: int| 0 <= m < tail.len() && tail[m] == y;
            assert(s[n + m] == y);
            if m > 0 {
                assert(!s[n].before(s[n + m]));
            }
        }
        if s.contains(y) && !x.before(y) {
            if y == x {
                assert(tail[0] == y);
            } else {
                Signature::lemma_total(x, y);
                let m = choose|m: int| 0 <= m < s.len() && s[m] == y;
                if m < n {
                    assert(!s[m].before(s[n]));
                }
                assert(tail[m - n] == y);
            }
        }
    }
}

/// Where a page starts: the signature before it, or none.
pub open spec fn page_before(all: Seq<(Slot, Signature)>, i: int) -> Option<Signature> {
    if i == 0 {
        None
    } else {
        Some(all[i - 1].1)
    }
}

/// Where a page ends: the signature after it, or none.
pub open spec fn page_until(all: Seq<(Slot, Signature)>, j: int) -> Option<Signature> {
    if j == all.len() {
        None
    } else {
        Some(all[j].1)
    }
}

/// `all` is what belongs into the listing of an address from `highest_slot` down, in order.
pub open spec fn lists_all(
    store: BlockstoreView,
    address: Pubkey,
    highest_slot: Slot,
    all: Seq<(Slot, Signature)>,
) -> bool {
    &&& descending(all)
    &&& forall|p: (Slot, Signature)| #[trigger]
        all.contains(p) <==> wanted(store, address, highest_slot, p)
}

/// Where a page starts.
proof fn lemma_page_start(
    store: BlockstoreView,
    address: Pubkey,
    highest_slot: Slot,
    all: Seq<(Slot, Signature)>,
    i: int,
)
    requires
        pageable(store, address, highest_slot),
        lists_all(store, address, highest_slot, all),
        0 <= i <= all.len(),
    ensures
        listing_start(
            store,
            confirmed_unrooted(store, highest_slot),
            highest_slot,
            page_before(all, i),
        ) matches Ok(Some(start)) && {
            &&& start.0 <= highest_slot
            &&& start.0 == highest_slot || may_list(store, highest_slot, start.0)
            &&& i > 0 ==> start.0 == all[i - 1].0
            &&& i == 0 ==> start.0 == highest_slot
            &&& forall|x: int|
                0 <= x < all.len() ==> (x >= i <==> (#[trigger] all[x]).0 <= start.0 && !(
                all[x].0 == start.0 && start.1.contains(all[x].1)))
        },
{
    let unrooted = confirmed_unrooted(store, highest_slot);
    let start = listing_start(store, unrooted, highest_slot, page_before(all, i))->Ok_0->0;
    if i == 0 {
        assert forall|x: int| 0 <= x < all.len() implies (#[trigger] all[x]).0 <= highest_slot by {
            assert(all.contains(all[x]));
        }
    } else {
        let b = all[i - 1];
        assert(all.contains(b));
        assert(wanted(store, address, highest_slot, b));
        assert(located(store, address, highest_slot, b));
        let signatures = block_signatures(store, b.0)->Ok_0;
        lemma_parts(store, b.0, b.1);
        assert forall|x: int| 0 <= x < all.len() implies (x >= i <==> (#[trigger] all[x]).0
            <= start.0 && !(all[x].0 == start.0 && start.1.contains(all[x].1))) by {
            assert(all.contains(all[x]));
            assert(wanted(store, address, highest_slot, all[x]));
            lemma_pairs_ordered(all[x], b, all[x]);
            if x < i - 1 {
                assert(pair_before(b, all[x]));
            }
            if x >= i {
                assert(pair_before(all[x], b));
            }
            if all[x].0 == b.0 {
                assert(signatures.contains(all[x].1));
                assert(start.1.contains(all[x].1) <==> !all[x].1.before(b.1));
            }
        }
    }
}

/// Where a page ends.
proof fn lemma_page_end(
    store: BlockstoreView,
    address: Pubkey,
    highest_slot: Slot,
    all: Seq<(Slot, Signature)>,
    j: int,
)
    requires
        pageable(store, address, highest_slot),
        lists_all(store, address, highest_slot, all),
        0 <= j <= all.len(),
    ensures
        listing_end(
            store,
            confirmed_unrooted(store, highest_slot),
            page_until(all, j),
        ) matches Ok(end) && {
            &&& j < all.len() ==> end.0 == all[j].0
            &&& j == all.len() ==> end.0 == 0
            &&& forall|x: int|
                0 <= x < all.len() ==> (x < j <==> (#[trigger] all[x]).0 >= end.0
                    && !end.1.contains(all[x].1))
            &&& forall|x: int|
                0 <= x < all.len() && end.1.contains((#[trigger] all[x]).1) ==> all[x].0 == end.0
        },
{
    let unrooted = confirmed_unrooted(store, highest_slot);
    let end = listing_end(store, unrooted, page_until(all, j))->Ok_0;
    if j < all.len() {
        let u = all[j];
        assert(all.contains(u));
        assert(wanted(store, address, highest_slot, u));
        assert(located(store, address, highest_slot, u));
        let signatures = block_signatures(store, u.0)->Ok_0;
        lemma_parts(store, u.0, u.1);
        assert forall|x: int| 0 <= x < all.len() implies (end.1.contains((#[trigger] all[x]).1)
            ==> all[x].0 == end.0) && (x < j <==> all[x].0 >= end.0 && !end.1.contains(
            all[x].1,
        )) by {
            assert(all.contains(all[x]));
            assert(wanted(store, address, highest_slot, all[x]));
            lemma_pairs_ordered(all[x], u, all[x]);
            if x < j {
                assert(pair_before(u, all[x]));
            }
            if x > j {
                assert(pair_before(all[x], u));
            }
            assert(end.1.contains(all[x].1) <==> signatures.contains(all[x].1) && !u.1.before(
                all[x].1,
            ));
            assert(signatures.contains(all[x].1) <==> all[x].0 == u.0);
        }
    }
}

/// The pages of a listing are cut out of the whole: the listing of at most `limit` signatures
/// from after the signature at `i - 1` to before that at `j` holds the signatures from `i` on,
/// up to `j` and to the limit, with what is known of each. Both ends are left out, and pages of
/// any size, laid end to end, give all signatures, each once.
pub proof fn law_pages_are_cut_out_of_the_listing(
    store: BlockstoreView,
    address: Pubkey,
    highest_slot: Slot,
    all: Seq<(Slot, Signature)>,
    i: int,
    j: int,
    limit: usize,
)
    requires
        pageable(store, address, highest_slot),
        lists_all(store, address, highest_slot, all),
        0 <= i <= j <= all.len(),
    ensures
        address_listing(
            store,
            address,
            highest_slot,
            page_before(all, i),
            page_until(all, j),
            limit,
        ) == Ok::<Seq<ConfirmedTransactionStatusWithSignatureView>, BlockstoreError>(
            Seq::new(
                if j - i < limit {
                    (j - i) as nat
                } else {
                    limit as nat
                },
                |x: int|
                    signature_info(store, confirmed_unrooted(store, highest_slot), all[i + x]),
            ),
        ),
{
    let unrooted = confirmed_unrooted(store, highest_slot);
    lemma_page_start(store, address, highest_slot, all, i);
    lemma_page_end(store, address, highest_slot, all, j);
    let start = listing_start(store, unrooted, highest_slot, page_before(all, i))->Ok_0->0;
    let end = listing_end(store, unrooted, page_until(all, j))->Ok_0;
    let slot = start.0;
    let lowest = end.0;
    assert(lowest <= slot) by {
        if j < all.len() && i > 0 {
            assert(pair_before(all[j], all[i - 1]));
        } else if j < all.len() {
            assert(all.contains(all[j]));
            assert(wanted(store, address, highest_slot, all[j]));
        }
    }
    let full = whole(store, address, highest_slot, slot, start.1, lowest);
    lemma_whole(store, address, highest_slot, slot, start.1, lowest);
    lemma_listed(store, address, highest_slot, slot, start.1, lowest, limit);
    let listed = listed_signatures(store, unrooted, address, slot, start.1, lowest, limit);
    let keep = |p: (Slot, Signature)| !end.1.contains(p.1);
    let page = all.subrange(i, j);
    let g = page.len() as int;
    lemma_page(store, address, highest_slot, all, i, j, slot, start.1, lowest, end.1);
    let kept = without_signatures(listed, end.1);
    assert(kept == selected(listed, keep));
    assert(at_most(kept, limit) == capped(page, limit as int)) by {
        lemma_capped(store, address, highest_slot, slot, start.1, lowest, limit, listed, end.1, g);
        assert(full.take(g) =~= page);
    }
    let pairs = at_most(kept, limit);
    assert forall|x: int| 0 <= x < pairs.len() implies !cleaned_up(
        store,
        (#[trigger] pairs[x]).0,
    ) && pairs[x] == all[i + x] by {
        assert(all.contains(all[i + x]));
        assert(wanted(store, address, highest_slot, all[i + x]));
    }
    let infos = signature_infos(store, unrooted, pairs);
    let expected = Seq::new(
        if j - i < limit {
            (j - i) as nat
        } else {
            limit as nat
        },
        |x: int| signature_info(store, unrooted, all[i + x]),
    );
    assert(infos is Ok);
    assert(infos->Ok_0 =~= expected);
}

/// The whole listing starts with the page, and what follows is left out at its end.
proof fn lemma_page(
    store: BlockstoreView,
    address: Pubkey,
    highest_slot: Slot,
    all: Seq<(Slot, Signature)>,
    i: int,
    j: int,
    slot: Slot,
    excluded: Seq<Signature>,
    lowest: Slot,
    ended: Seq<Signature>,
)
    requires
        lists_all(store, address, highest_slot, all),
        0 <= i <= j <= all.len(),
        ({
            let full = whole(store, address, highest_slot, slot, excluded, lowest);
            &&& descending(full)
            &&& forall|p: (Slot, Signature)| #[trigger]
                full.contains(p) <==> in_whole(
                    store,
                    address,
                    highest_slot,
                    slot,
                    excluded,
                    lowest,
                    p,
                )
        }),
        forall|x: int|
            0 <= x < all.len() ==> (x >= i <==> (#[trigger] all[x]).0 <= slot && !(all[x].0
                == slot && excluded.contains(all[x].1))),
        forall|x: int|
            0 <= x < all.len() ==> (x < j <==> (#[trigger] all[x]).0 >= lowest && !ended.contains(
                all[x].1,
            )),
    ensures
        ({
            let full = whole(store, address, highest_slot, slot, excluded, lowest);
            &&& j - i <= full.len()
            &&& i + full.len() <= all.len()
            &&& full == all.subrange(i, i + full.len())
            &&& full.take(j - i) == all.subrange(i, j)
            &&& forall|x: int|
                0 <= x < full.len() ==> (!ended.contains((#[trigger] full[x]).1) <==> x < j - i)
        }),
{
    let full = whole(store, address, highest_slot, slot, excluded, lowest);
    // Those at `lowest` or above come first.
    let top = lemma_count_above(all, lowest);
    let part = all.subrange(i, if top < i { i } else { top });
    assert forall|a: int, b: int| 0 <= a < b < part.len() implies pair_before(
        #[trigger] part[b],
        #[trigger] part[a],
    ) by {
        assert(pair_before(all[i + b], all[i + a]));
    }
    assert forall|p: (Slot, Signature)| #[trigger] part.contains(p) <==> full.contains(p) by {
        if part.contains(p) {
            let x = choose|x: int| 0 <= x < part.len() && part[x] == p;
            assert(all[i + x] == p);
            assert(all.contains(p));
        }
        if full.contains(p) {
            assert(in_whole(store, address, highest_slot, slot, excluded, lowest, p));
            assert(all.contains(p));
            let x = choose|x: int| 0 <= x < all.len() && all[x] == p;
            assert(part[x - i] == p);
        }
    }
    lemma_descending_unique(part, full);
    if j > i {
        assert(all[j - 1].0 >= lowest);
    }
    assert(full.take(j - i) =~= all.subrange(i, j));
    assert forall|x: int| 0 <= x < full.len() implies (!ended.contains((#[trigger] full[x]).1)
        <==> x < j - i) by {
        assert(full[x] == all[i + x]);
    }
}

/// How many pairs of a decreasing sequence are at `lowest` or above.
proof fn lemma_count_above(all: Seq<(Slot, Signature)>, lowest: Slot) -> (n: int)
    requires
        descending(all),
    ensures
        0 <= n <= all.len(),
        forall|x: int| 0 <= x < all.len() ==> (x < n <==> (#[trigger] all[x]).0 >= lowest),
    decreases all.len(),
{
    if all.len() == 0 {
        0
    } else {
        let rest = all.drop_last();
        let last = all.len() - 1;
        assert forall|a: int, b: int| 0 <= a < b < rest.len() implies pair_before(
            #[trigger] rest[b],
            #[trigger] rest[a],
        ) by {
            assert(pair_before(all[b], all[a]));
        }
        let n = lemma_count_above(rest, lowest);
        assert forall|x: int| 0 <= x < last implies (x < n <==> (#[trigger] all[x]).0 >= lowest) by {
            assert(rest[x] == all[x]);
        }
        if all[last].0 >= lowest {
            if n < last {
                assert(pair_before(all[last], all[n]));
            }
            n + 1
        } else {
            n
        }
    }
}

/// What is left of a listing with a limit is the beginning of what is left of the whole.
proof fn lemma_capped(
    store: BlockstoreView,
    address: Pubkey,
    highest_slot: Slot,
    slot: Slot,
    excluded: Seq<Signature>,
    lowest: Slot,
    limit: usize,
    listed: Seq<(Slot, Signature)>,
    ended: Seq<Signature>,
    g: int,
)
    requires
        pageable(store, address, highest_slot),
        lowest <= slot <= highest_slot,
        slot == highest_slot || may_list(store, highest_slot, slot),
        begins(store, address, highest_slot, slot, excluded, lowest, limit, listed),
        ({
            let full = whole(store, address, highest_slot, slot, excluded, lowest);
            &&& 0 <= g <= full.len()
            &&& forall|x: int|
                0 <= x < full.len() ==> (!ended.contains((#[trigger] full[x]).1) <==> x < g)
            &&& forall|x: int|
                0 <= x < full.len() && ended.contains((#[trigger] full[x]).1) ==> full[x].0
                    == lowest
        }),
    ensures
        at_most(without_signatures(listed, ended), limit) == capped(
            whole(store, address, highest_slot, slot, excluded, lowest).take(g),
            limit as int,
        ),
{
    let full = whole(store, address, highest_slot, slot, excluded, lowest);
    let keep = |p: (Slot, Signature)| !ended.contains(p.1);
    let m = listed.len() as int;
    if m <= full.len() && listed == full.take(m) && (m >= limit || m == full.len()) {
        let h = if g <= m {
            g
        } else {
            m
        };
        assert forall|x: int| 0 <= x < listed.len() implies (keep(#[trigger] listed[x]) <==> x
            < h) by {
            assert(listed[x] == full[x]);
        }
        lemma_selected_prefix(listed, keep, h);
        assert(at_most(listed.take(h), limit) =~= capped(full.take(g), limit as int));
    } else {
        let k = limit as int;
        let u = upper(store, address, highest_slot, slot, excluded, lowest);
        lemma_upper(store, address, highest_slot, slot, excluded, lowest);
        assert forall|x: int| 0 <= x < k implies keep(#[trigger] full[x]) by {
            assert(full[x] == u[x]);
            assert(u.contains(u[x]));
        }
        assert(k <= g) by {
            if g < k {
                assert(keep(full[g]));
            }
        }
        let head = listed.take(k);
        let tail = listed.skip(k);
        assert(listed =~= head + tail);
        lemma_selected_joined(head, tail, keep);
        assert forall|x: int| 0 <= x < head.len() implies (keep(#[trigger] head[x]) <==> x < k) by {
            assert(head[x] == full.take(k)[x]);
        }
        lemma_selected_prefix(head, keep, k);
        assert(head.take(k) =~= head);
        let kept = selected(listed, keep);
        assert(at_most(kept, limit) =~= head);
        assert(capped(full.take(g), k) =~= full.take(k));
    }
}

} // verus!
