//! The signatures of the transactions that name an address.

use vstd::prelude::*;
use crate::blocks::{block_readable, block_time_of, complete_block};
use crate::blockstore::{Blockstore, BlockstoreView};
use crate::column::{
    lemma_lower, lemma_selected_window, lower, ordered_keys, orders, selected, splits_at, ColumnKey,
};
use crate::ledger::LedgerView;
use crate::records::{
    with_status_views, BlockstoreError, ConfirmedTransactionStatusWithSignature,
    ConfirmedTransactionStatusWithSignatureView, Result, TransactionError,
    TransactionWithStatusMeta, TransactionWithStatusMetaView,
};
use crate::roots::{confirmed_unrooted, descends, first_available_block, rooted};
use crate::slot_entries::cleaned_up;
use crate::transactions::{confirmed, holds_slot, memo_of, transaction_status};
use crate::types::{zero_signature, AddressKey, Pubkey, Signature, Slot};

verus! {

/// The key is one of the address under index `i`, in a slot from `from` to `to`, included.
pub open spec fn key_in_range(
    k: AddressKey,
    i: u64,
    address: Pubkey,
    from: int,
    to: Slot,
) -> bool {
    k.primary_index == i && k.address == address && from <= k.slot <= to
}

/// The slots and signatures of some keys.
pub open spec fn slots_and_signatures(keys: Seq<AddressKey>) -> Seq<(Slot, Signature)> {
    Seq::new(keys.len(), |j: int| (keys[j].slot, keys[j].signature))
}

/// The signatures that name an address under index `i`, in the slots from `from` to `to`, with
/// their slots, in order. With `rooted_only`, those in rooted slots.
pub open spec fn index_signatures(
    ledger: LedgerView,
    i: u64,
    address: Pubkey,
    from: int,
    to: Slot,
    rooted_only: bool,
) -> Seq<(Slot, Signature)> {
    slots_and_signatures(
        selected(
            ordered_keys(ledger.address_signatures),
            |k: AddressKey|
                key_in_range(k, i, address, from, to) && (rooted_only ==> rooted(ledger, k.slot)),
        ),
    )
}

/// Ordered by slot and then by signature.
pub open spec fn pair_before(a: (Slot, Signature), b: (Slot, Signature)) -> bool {
    a.0 < b.0 || (a.0 == b.0 && a.1.before(b.1))
}

/// Two ordered sequences put together in order.
pub open spec fn merged(a: Seq<(Slot, Signature)>, b: Seq<(Slot, Signature)>) -> Seq<
    (Slot, Signature),
>
    decreases a.len() + b.len(),
{
    if a.len() == 0 {
        b
    } else if b.len() == 0 {
        a
    } else if pair_before(b[0], a[0]) {
        seq![b[0]] + merged(a, b.drop_first())
    } else {
        seq![a[0]] + merged(a.drop_first(), b)
    }
}

/// The larger of two slots.
pub open spec fn later(a: int, b: int) -> int {
    if a < b {
        b
    } else {
        a
    }
}

/// The signatures in rooted slots from `start` to `end` that name an address, with their
/// slots, ordered by slot and then by signature.
pub open spec fn address_signatures(
    store: BlockstoreView,
    address: Pubkey,
    start: Slot,
    end: Slot,
) -> Seq<(Slot, Signature)> {
    let from = later(start as int, store.lowest_cleanup_slot + 1);
    merged(
        index_signatures(store.ledger, 0, address, from, end, true),
        index_signatures(store.ledger, 1, address, from, end, true),
    )
}

/// The signatures in a slot, rooted or not, that name an address, ordered by signature.
pub open spec fn slot_signatures(store: BlockstoreView, address: Pubkey, slot: Slot) -> Seq<
    (Slot, Signature),
> {
    let from = later(slot as int, store.lowest_cleanup_slot + 1);
    merged(
        index_signatures(store.ledger, 0, address, from, slot, false),
        index_signatures(store.ledger, 1, address, from, slot, false),
    )
}

/// `s` with `x` put in its place, in decreasing order.
pub open spec fn insert_descending(s: Seq<Signature>, x: Signature) -> Seq<Signature>
    decreases s.len(),
{
    if s.len() == 0 {
        seq![x]
    } else if s.last().before(x) {
        insert_descending(s.drop_last(), x).push(s.last())
    } else {
        s.push(x)
    }
}

/// The first signatures of some transactions, in decreasing order.
pub open spec fn descending_signatures(transactions: Seq<TransactionWithStatusMetaView>) -> Seq<
    Signature,
>
    decreases transactions.len(),
{
    if transactions.len() == 0 {
        Seq::empty()
    } else {
        insert_descending(
            descending_signatures(transactions.drop_last()),
            transactions.last().transaction.signature,
        )
    }
}

/// The signatures of a block, in decreasing order, or why there are none.
pub open spec fn block_signatures(store: BlockstoreView, slot: Slot) -> core::result::Result<
    Seq<Signature>,
    BlockstoreError,
> {
    match complete_block(store, slot, false) {
        Err(e) => Err(BlockstoreError::Io(Box::new(e))),
        Ok(block) => Ok(descending_signatures(block.transactions)),
    }
}

/// The first place of `x` in `s`, or the length of `s`.
pub open spec fn place_of(s: Seq<Signature>, x: Signature) -> int
    decreases s.len(),
{
    if s.len() == 0 {
        0
    } else if s[0] == x {
        0
    } else {
        1 + place_of(s.drop_first(), x)
    }
}

/// `s` up to `x`, included, or all of it.
pub open spec fn up_to(s: Seq<Signature>, x: Signature) -> Seq<Signature> {
    if place_of(s, x) < s.len() {
        s.take(place_of(s, x) + 1)
    } else {
        s
    }
}

/// `s` from `x` on, or all of it.
pub open spec fn starting_at(s: Seq<Signature>, x: Signature) -> Seq<Signature> {
    if place_of(s, x) < s.len() {
        s.skip(place_of(s, x))
    } else {
        s
    }
}

/// Where a listing starts: a slot, and the signatures of it that come before the listing.
/// `None` where `before` is not known.
pub open spec fn listing_start(
    store: BlockstoreView,
    unrooted: Seq<Slot>,
    highest_slot: Slot,
    before: Option<Signature>,
) -> core::result::Result<Option<(Slot, Seq<Signature>)>, BlockstoreError> {
    match before {
        None => Ok(Some((highest_slot, Seq::empty()))),
        Some(signature) => match transaction_status(store, signature, unrooted) {
            None => Ok(None),
            Some(found) => match block_signatures(store, found.0) {
                Err(e) => Err(e),
                Ok(signatures) => Ok(Some((found.0, up_to(signatures, signature)))),
            },
        },
    }
}

/// Where a listing ends: a slot, and the signatures of it that come after the listing.
pub open spec fn listing_end(
    store: BlockstoreView,
    unrooted: Seq<Slot>,
    until: Option<Signature>,
) -> core::result::Result<(Slot, Seq<Signature>), BlockstoreError> {
    match until {
        None => Ok((0, Seq::empty())),
        Some(signature) => match transaction_status(store, signature, unrooted) {
            None => Ok((0, Seq::empty())),
            Some(found) => match block_signatures(store, found.0) {
                Err(e) => Err(e),
                Ok(signatures) => Ok((found.0, starting_at(signatures, signature))),
            },
        },
    }
}

/// Walks down the first `n` of `keys` and adds the confirmed ones of the address under index
/// `i`, until there are `limit`. The walk ends below `lowest_slot`, below the first available
/// block, and at the keys of another address. At `crossing_slot`, which is listed apart, the
/// walk ends where `stops_at_crossing`, and else passes over it.
pub open spec fn walk_down(
    ledger: LedgerView,
    unrooted: Seq<Slot>,
    keys: Seq<AddressKey>,
    n: int,
    i: u64,
    address: Pubkey,
    crossing_slot: Slot,
    stops_at_crossing: bool,
    lowest_slot: Slot,
    first_available: Slot,
    limit: usize,
    found: Seq<(Slot, Signature)>,
) -> Seq<(Slot, Signature)>
    decreases n,
{
    if found.len() >= limit || n <= 0 {
        found
    } else {
        let k = keys[n - 1];
        if k.slot == crossing_slot && stops_at_crossing {
            found
        } else if k.slot != crossing_slot && (k.slot < lowest_slot || k.primary_index != i
            || k.address != address || k.slot < first_available) {
            found
        } else {
            walk_down(
                ledger,
                unrooted,
                keys,
                n - 1,
                i,
                address,
                crossing_slot,
                stops_at_crossing,
                lowest_slot,
                first_available,
                limit,
                if k.slot != crossing_slot && confirmed(ledger, unrooted, k.slot) {
                    found.push((k.slot, k.signature))
                } else {
                    found
                },
            )
        }
    }
}

/// How many of the keys are not after `k`.
pub open spec fn not_after(keys: Seq<AddressKey>, k: AddressKey) -> int {
    lower(keys, k) + if keys.contains(k) {
        1int
    } else {
        0int
    }
}

/// The key that a walk down from `slot` starts at.
pub open spec fn walk_start(i: u64, address: Pubkey, slot: Slot) -> AddressKey {
    AddressKey { primary_index: i, address, slot, signature: zero_signature() }
}

/// The primary index other than the active one.
pub open spec fn other_index(active: u64) -> u64 {
    if active == 0 {
        1
    } else {
        0
    }
}

/// The pairs whose signature is not one of `excluded`.
pub open spec fn without_signatures(
    pairs: Seq<(Slot, Signature)>,
    excluded: Seq<Signature>,
) -> Seq<(Slot, Signature)> {
    selected(pairs, |p: (Slot, Signature)| !excluded.contains(p.1))
}

/// The signatures of an address from `slot` down: first those of `slot` itself, but for the
/// excluded ones, then those under the active index, then those of the slot where the two
/// indexes meet, then those under the other index.
pub open spec fn listed_signatures(
    store: BlockstoreView,
    unrooted: Seq<Slot>,
    address: Pubkey,
    slot: Slot,
    excluded: Seq<Signature>,
    lowest_slot: Slot,
    limit: usize,
) -> Seq<(Slot, Signature)> {
    let ledger = store.ledger;
    let keys = ordered_keys(ledger.address_signatures);
    let active = store.active_transaction_status_index;
    let other = other_index(active);
    let crossing = ledger.transaction_status_index[other].max_slot;
    let first = first_available_block(store);
    let own = without_signatures(slot_signatures(store, address, slot).reverse(), excluded);
    let walked = walk_down(
        ledger,
        unrooted,
        keys,
        not_after(keys, walk_start(active, address, slot)),
        active,
        address,
        crossing,
        true,
        lowest_slot,
        first,
        limit,
        own,
    );
    let crossed = if slot <= crossing {
        own
    } else if crossing >= lowest_slot {
        walked + slot_signatures(store, address, crossing).reverse()
    } else {
        walked
    };
    walk_down(
        ledger,
        unrooted,
        keys,
        not_after(keys, walk_start(other, address, slot)),
        other,
        address,
        crossing,
        false,
        lowest_slot,
        first,
        limit,
        crossed,
    )
}

/// What is known of a listed signature.
pub open spec fn signature_info(
    store: BlockstoreView,
    unrooted: Seq<Slot>,
    pair: (Slot, Signature),
) -> ConfirmedTransactionStatusWithSignatureView {
    ConfirmedTransactionStatusWithSignatureView {
        signature: pair.1,
        slot: pair.0,
        err: match transaction_status(store, pair.1, unrooted) {
            Some(found) => found.1.err,
            None => None,
        },
        memo: memo_of(store.ledger, pair.1),
        block_time: block_time_of(store.ledger, pair.0),
    }
}

/// What is known of the listed signatures. Refused where one is in a slot that was purged.
pub open spec fn signature_infos(
    store: BlockstoreView,
    unrooted: Seq<Slot>,
    pairs: Seq<(Slot, Signature)>,
) -> core::result::Result<Seq<ConfirmedTransactionStatusWithSignatureView>, BlockstoreError> {
    if exists|i: int| 0 <= i < pairs.len() && cleaned_up(store, (#[trigger] pairs[i]).0) {
        Err(BlockstoreError::SlotCleanedUp)
    } else {
        Ok(Seq::new(pairs.len(), |i: int| signature_info(store, unrooted, pairs[i])))
    }
}

/// The first `limit` of some pairs.
pub open spec fn at_most(pairs: Seq<(Slot, Signature)>, limit: usize) -> Seq<(Slot, Signature)> {
    if pairs.len() > limit {
        pairs.take(limit as int)
    } else {
        pairs
    }
}

/// The listing of at most `limit` signatures that name an address, from `highest_slot`, or
/// from after `before`, down to before `until`.
pub open spec fn address_listing(
    store: BlockstoreView,
    address: Pubkey,
    highest_slot: Slot,
    before: Option<Signature>,
    until: Option<Signature>,
    limit: usize,
) -> core::result::Result<Seq<ConfirmedTransactionStatusWithSignatureView>, BlockstoreError> {
    let unrooted = confirmed_unrooted(store, highest_slot);
    match listing_start(store, unrooted, highest_slot, before) {
        Err(e) => Err(e),
        Ok(None) => Ok(Seq::empty()),
        Ok(Some(start)) => match listing_end(store, unrooted, until) {
            Err(e) => Err(e),
            Ok(end) => signature_infos(
                store,
                unrooted,
                at_most(
                    without_signatures(
                        listed_signatures(
                            store,
                            unrooted,
                            address,
                            start.0,
                            start.1,
                            end.0,
                            limit,
                        ),
                        end.1,
                    ),
                    limit,
                ),
            ),
        },
    }
}

proof fn lemma_merged_step(
    a: Seq<(Slot, Signature)>,
    b: Seq<(Slot, Signature)>,
    i: int,
    j: int,
)
    requires
        0 <= i < a.len(),
        0 <= j < b.len(),
    ensures
        pair_before(b[j], a[i]) ==> merged(a.skip(i), b.skip(j)) == seq![b[j]] + merged(
            a.skip(i),
            b.skip(j + 1),
        ),
        !pair_before(b[j], a[i]) ==> merged(a.skip(i), b.skip(j)) == seq![a[i]] + merged(
            a.skip(i + 1),
            b.skip(j),
        ),
{
    assert(a.skip(i)[0] == a[i]);
    assert(b.skip(j)[0] == b[j]);
    assert(a.skip(i).drop_first() =~= a.skip(i + 1));
    assert(b.skip(j).drop_first() =~= b.skip(j + 1));
}

/// Puts two ordered vectors together in order.
fn merge_pairs(a: Vec<(Slot, Signature)>, b: Vec<(Slot, Signature)>) -> (result: Vec<
    (Slot, Signature),
>)
    ensures
        result@ == merged(a@, b@),
{
    let mut result: Vec<(Slot, Signature)> = Vec::new();
    let mut i: usize = 0;
    let mut j: usize = 0;
    let ghost all = merged(a@, b@);
    assert(a@.skip(0) =~= a@);
    assert(b@.skip(0) =~= b@);
    assert(result@ + all =~= all);
    while i < a.len() && j < b.len()
        invariant
            0 <= i <= a@.len(),
            0 <= j <= b@.len(),
            result@ + merged(a@.skip(i as int), b@.skip(j as int)) == all,
        decreases a@.len() - i + b@.len() - j,
    {
        let x = a[i];
        let y = b[j];
        let ghost before = result@;
        proof {
            lemma_merged_step(a@, b@, i as int, j as int);
        }
        if y.0 < x.0 || (y.0 == x.0 && y.1.is_before(&x.1)) {
            result.push(y);
            assert(before + (seq![y] + merged(a@.skip(i as int), b@.skip(j + 1))) =~= result@
                + merged(a@.skip(i as int), b@.skip(j + 1)));
            j += 1;
        } else {
            result.push(x);
            assert(before + (seq![x] + merged(a@.skip(i + 1), b@.skip(j as int))) =~= result@
                + merged(a@.skip(i + 1), b@.skip(j as int)));
            i += 1;
        }
    }
    let ghost base = result@;
    let ghost rest = merged(a@.skip(i as int), b@.skip(j as int));
    if i < a.len() {
        assert(rest =~= a@.skip(i as int));
        while i < a.len()
            invariant
                0 <= i <= a@.len(),
                base + rest == all,
                result@ + a@.skip(i as int) == all,
            decreases a@.len() - i,
        {
            let ghost before = result@;
            result.push(a[i]);
            assert(before + a@.skip(i as int) =~= result@ + a@.skip(i + 1));
            i += 1;
        }
        assert(a@.skip(i as int) =~= Seq::empty());
        assert(result@ + a@.skip(i as int) =~= result@);
    } else {
        assert(a@.skip(i as int) =~= Seq::empty());
        assert(rest =~= b@.skip(j as int));
        while j < b.len()
            invariant
                0 <= j <= b@.len(),
                result@ + b@.skip(j as int) == all,
            decreases b@.len() - j,
        {
            let ghost before = result@;
            result.push(b[j]);
            assert(before + b@.skip(j as int) =~= result@ + b@.skip(j + 1));
            j += 1;
        }
        assert(b@.skip(j as int) =~= Seq::empty());
        assert(result@ + b@.skip(j as int) =~= result@);
    }
    result
}

/// The pairs in reverse order.
fn reverse_pairs(pairs: &Vec<(Slot, Signature)>) -> (result: Vec<(Slot, Signature)>)
    ensures
        result@ == pairs@.reverse(),
{
    let mut result: Vec<(Slot, Signature)> = Vec::new();
    let mut i: usize = pairs.len();
    while i > 0
        invariant
            0 <= i <= pairs@.len(),
            result@ == pairs@.reverse().take(pairs@.len() - i),
        decreases i,
    {
        i -= 1;
        result.push(pairs[i]);
        assert(result@ =~= pairs@.reverse().take(pairs@.len() - i));
    }
    assert(result@ =~= pairs@.reverse());
    result
}

/// Whether `signatures` holds `signature`.
fn holds_signature(signatures: &Vec<Signature>, signature: Signature) -> (result: bool)
    ensures
        result == signatures@.contains(signature),
{
    let mut i: usize = 0;
    while i < signatures.len()
        invariant
            0 <= i <= signatures@.len(),
            forall|j: int| 0 <= j < i ==> signatures@[j] != signature,
        decreases signatures@.len() - i,
    {
        if signatures[i] == signature {
            assert(signatures@[i as int] == signature);
            return true;
        }
        i += 1;
    }
    false
}

/// The pairs whose signature is not one of `excluded`.
fn exclude_signatures(pairs: &Vec<(Slot, Signature)>, excluded: &Vec<Signature>) -> (result: Vec<
    (Slot, Signature),
>)
    ensures
        result@ == without_signatures(pairs@, excluded@),
{
    let mut result: Vec<(Slot, Signature)> = Vec::new();
    let ghost keep = |p: (Slot, Signature)| !excluded@.contains(p.1);
    let mut i: usize = 0;
    assert(pairs@.take(0) =~= Seq::empty());
    while i < pairs.len()
        invariant
            0 <= i <= pairs@.len(),
            keep == (|p: (Slot, Signature)| !excluded@.contains(p.1)),
            result@ == selected(pairs@.take(i as int), keep),
        decreases pairs@.len() - i,
    {
        let pair = pairs[i];
        proof {
            assert(pairs@.take(i + 1).drop_last() =~= pairs@.take(i as int));
            assert(pairs@.take(i + 1).last() == pair);
        }
        if !holds_signature(excluded, pair.1) {
            result.push(pair);
        }
        i += 1;
    }
    assert(pairs@.take(pairs@.len() as int) =~= pairs@);
    result
}

proof fn lemma_insert_descending(s: Seq<Signature>, x: Signature, p: int)
    requires
        0 <= p <= s.len(),
        forall|i: int| p <= i < s.len() ==> (#[trigger] s[i]).before(x),
        p > 0 ==> !s[p - 1].before(x),
    ensures
        insert_descending(s, x) == s.insert(p, x),
    decreases s.len(),
{
    if s.len() == 0 {
        assert(s.insert(p, x) =~= seq![x]);
    } else if p == s.len() {
        assert(s.insert(p, x) =~= s.push(x));
    } else {
        let d = s.drop_last();
        assert(s[s.len() - 1].before(x));
        assert forall|i: int| p <= i < d.len() implies (#[trigger] d[i]).before(x) by {
            assert(s[i].before(x));
        }
        lemma_insert_descending(d, x, p);
        assert(d.insert(p, x).push(s.last()) =~= s.insert(p, x));
    }
}

/// The first signatures of some transactions, in decreasing order.
fn sort_signatures(transactions: &Vec<TransactionWithStatusMeta>) -> (result: Vec<Signature>)
    ensures
        result@ == descending_signatures(with_status_views(transactions@)),
{
    let mut result: Vec<Signature> = Vec::new();
    let ghost views = with_status_views(transactions@);
    let mut i: usize = 0;
    assert(views.take(0) =~= Seq::empty());
    while i < transactions.len()
        invariant
            0 <= i <= transactions@.len(),
            views == with_status_views(transactions@),
            result@ == descending_signatures(views.take(i as int)),
        decreases transactions@.len() - i,
    {
        let x = transactions[i].transaction.signature;
        proof {
            assert(views.take(i + 1).drop_last() =~= views.take(i as int));
            assert(views.take(i + 1).last() == transactions@[i as int]@);
        }
        let mut p: usize = result.len();
        while p > 0 && result[p - 1].is_before(&x)
            invariant
                0 <= p <= result@.len(),
                forall|j: int| p <= j < result@.len() ==> (#[trigger] result@[j]).before(x),
            decreases p,
        {
            p -= 1;
        }
        proof {
            lemma_insert_descending(result@, x, p as int);
        }
        result.insert(p, x);
        i += 1;
    }
    assert(views.take(transactions@.len() as int) =~= views);
    result
}

/// The first place of `x`, or the length.
fn find_place(s: &Vec<Signature>, x: Signature) -> (result: usize)
    ensures
        result == place_of(s@, x),
        result <= s@.len(),
{
    let mut i: usize = 0;
    assert(s@.skip(0) =~= s@);
    while i < s.len()
        invariant
            0 <= i <= s@.len(),
            place_of(s@, x) == i + place_of(s@.skip(i as int), x),
        decreases s@.len() - i,
    {
        proof {
            assert(s@.skip(i as int)[0] == s@[i as int]);
            assert(s@.skip(i as int).drop_first() =~= s@.skip(i + 1));
        }
        if s[i] == x {
            return i;
        }
        i += 1;
    }
    assert(s@.skip(i as int) =~= Seq::empty());
    i
}

/// The part of `s` from `from` up to `to`, excluded.
fn part_of(s: &Vec<Signature>, from: usize, to: usize) -> (result: Vec<Signature>)
    requires
        from <= to <= s@.len(),
    ensures
        result@ == s@.subrange(from as int, to as int),
{
    let mut result: Vec<Signature> = Vec::new();
    let mut i: usize = from;
    while i < to
        invariant
            from <= i <= to <= s@.len(),
            result@ == s@.subrange(from as int, i as int),
        decreases to - i,
    {
        result.push(s[i]);
        assert(result@ =~= s@.subrange(from as int, i + 1));
        i += 1;
    }
    result
}

proof fn lemma_before_range(k: AddressKey, i: u64, address: Pubkey, from: Slot, to: Slot)
    requires
        k.before(
            AddressKey { primary_index: i, address, slot: from, signature: zero_signature() },
        ),
    ensures
        !key_in_range(k, i, address, from as int, to),
{
}

proof fn lemma_after_range(
    q: AddressKey,
    k: AddressKey,
    i: u64,
    address: Pubkey,
    from: Slot,
    to: Slot,
)
    requires
        !q.before(
            AddressKey { primary_index: i, address, slot: from, signature: zero_signature() },
        ),
        q.primary_index != i || q.slot > to || q.address != address,
        q == k || q.before(k),
    ensures
        !key_in_range(k, i, address, from as int, to),
{
    let start = AddressKey {
        primary_index: i,
        address,
        slot: from,
        signature: zero_signature(),
    };
    AddressKey::lemma_total(q, start);
}

impl Blockstore {
    /// The signatures that name an address under one index, in the slots from `from` to `to`,
    /// with their slots, in order.
    fn find_index_signatures(
        &self,
        primary_index: u64,
        pubkey: Pubkey,
        from: Slot,
        to: Slot,
        rooted_only: bool,
    ) -> (result: Vec<(Slot, Signature)>)
        ensures
            result@ == index_signatures(
                self@.ledger,
                primary_index,
                pubkey,
                from as int,
                to,
                rooted_only,
            ),
    {
        let ghost ledger = self@.ledger;
        let ghost keys = ordered_keys(ledger.address_signatures);
        let ghost keep = |k: AddressKey|
            key_in_range(k, primary_index, pubkey, from as int, to) && (rooted_only ==> rooted(
                ledger,
                k.slot,
            ));
        let start = AddressKey {
            primary_index,
            address: pubkey,
            slot: from,
            signature: Signature { w0: 0, w1: 0, w2: 0, w3: 0 },
        };
        let n: usize = self.ledger.address_signatures.len();
        let p: usize = self.ledger.address_signatures.lower_bound(&start);
        let mut result: Vec<(Slot, Signature)> = Vec::new();
        let mut i: usize = p;
        assert(keys.subrange(p as int, p as int) =~= Seq::empty());
        assert(result@ =~= slots_and_signatures(selected(Seq::<AddressKey>::empty(), keep)));
        loop
            invariant
                p <= i <= n,
                n == keys.len(),
                ledger == self@.ledger,
                keys == ordered_keys(ledger.address_signatures),
                orders(keys, ledger.address_signatures),
                splits_at(keys, start, p as int),
                start == (AddressKey {
                    primary_index,
                    address: pubkey,
                    slot: from,
                    signature: zero_signature(),
                }),
                keep == (|k: AddressKey|
                    key_in_range(k, primary_index, pubkey, from as int, to) && (rooted_only
                        ==> rooted(ledger, k.slot))),
                result@ == slots_and_signatures(
                    selected(keys.subrange(p as int, i as int), keep),
                ),
            ensures
                i < n ==> keys[i as int].primary_index != primary_index || keys[i as int].slot > to
                    || keys[i as int].address != pubkey,
            decreases n - i,
        {
            if i >= n {
                break;
            }
            let key = self.ledger.address_signatures.key_at(i);
            if key.primary_index != primary_index || key.slot > to || key.address != pubkey {
                break;
            }
            proof {
                let w = keys.subrange(p as int, i + 1);
                assert(w.drop_last() =~= keys.subrange(p as int, i as int));
                assert(w.last() == key);
                assert(!keys[i as int].before(start));
                assert(key.slot >= from) by {
                    if key.slot < from {
                        assert(key.before(start));
                    }
                }
            }
            let ghost before = result@;
            if !rooted_only || self.is_root(key.slot) {
                result.push((key.slot, key.signature));
                assert(keep(key));
            }
            assert(result@ =~= slots_and_signatures(
                selected(keys.subrange(p as int, i + 1), keep),
            ));
            i += 1;
        }
        proof {
            assert forall|j: int| 0 <= j < p implies !keep(#[trigger] keys[j]) by {
                assert(keys[j].before(start));
                lemma_before_range(keys[j], primary_index, pubkey, from, to);
            }
            assert forall|j: int| i <= j < keys.len() implies !keep(#[trigger] keys[j]) by {
                assert(!keys[i as int].before(start));
                if i < j {
                    assert(keys[i as int].before(keys[j]));
                }
                lemma_after_range(keys[i as int], keys[j], primary_index, pubkey, from, to);
            }
            lemma_selected_window(keys, keep, p as int, i as int);
        }
        result
    }

    /// The signatures in rooted slots that name an address, with their slots, ordered by slot
    /// and then by signature.
    pub fn find_address_signatures(&self, pubkey: Pubkey, start_slot: Slot, end_slot: Slot) -> (result:
        Vec<(Slot, Signature)>)
        requires
            self@.lowest_cleanup_slot < u64::MAX,
        ensures
            result@ == address_signatures(self@, pubkey, start_slot, end_slot),
    {
        let lowest_available_slot: u64 = self.ensure_lowest_cleanup_slot();
        let from: u64 = if start_slot < lowest_available_slot {
            lowest_available_slot
        } else {
            start_slot
        };
        let first = self.find_index_signatures(0, pubkey, from, end_slot, true);
        let second = self.find_index_signatures(1, pubkey, from, end_slot, true);
        merge_pairs(first, second)
    }

    /// The signatures in a slot, rooted or not, that name an address, ordered by signature.
    pub fn find_address_signatures_for_slot(&self, pubkey: Pubkey, slot: Slot) -> (result: Vec<
        (Slot, Signature),
    >)
        requires
            self@.lowest_cleanup_slot < u64::MAX,
        ensures
            result@ == slot_signatures(self@, pubkey, slot),
    {
        let lowest_available_slot: u64 = self.ensure_lowest_cleanup_slot();
        let from: u64 = if slot < lowest_available_slot {
            lowest_available_slot
        } else {
            slot
        };
        let first = self.find_index_signatures(0, pubkey, from, slot, false);
        let second = self.find_index_signatures(1, pubkey, from, slot, false);
        merge_pairs(first, second)
    }

    /// The signatures in rooted slots that name an address, ordered by slot and then by
    /// signature.
    pub fn get_confirmed_signatures_for_address(
        &self,
        pubkey: Pubkey,
        start_slot: Slot,
        end_slot: Slot,
    ) -> (result: Vec<Signature>)
        requires
            self@.lowest_cleanup_slot < u64::MAX,
        ensures
            ({
                let pairs = address_signatures(self@, pubkey, start_slot, end_slot);
                result@ == Seq::new(pairs.len(), |i: int| pairs[i].1)
            }),
    {
        let pairs = self.find_address_signatures(pubkey, start_slot, end_slot);
        let mut result: Vec<Signature> = Vec::new();
        let ghost all = Seq::new(pairs@.len(), |i: int| pairs@[i].1);
        let mut i: usize = 0;
        while i < pairs.len()
            invariant
                0 <= i <= pairs@.len(),
                all == Seq::new(pairs@.len(), |i: int| pairs@[i].1),
                result@ == all.take(i as int),
            decreases pairs@.len() - i,
        {
            result.push(pairs[i].1);
            assert(result@ =~= all.take(i + 1));
            i += 1;
        }
        assert(all.take(pairs@.len() as int) =~= all);
        result
    }

    /// The signatures of a block, in decreasing order.
    pub fn get_sorted_block_signatures(&self, slot: Slot) -> (result: Result<Vec<Signature>>)
        requires
            block_readable(self@, slot, false),
        ensures
            (match result {
                Ok(signatures) => Ok::<Seq<Signature>, BlockstoreError>(signatures@),
                Err(e) => Err(e),
            }) == block_signatures(self@, slot),
    {
        match self.get_complete_block(slot, false) {
            Err(e) => Err(BlockstoreError::Io(Box::new(e))),
            Ok(block) => Ok(sort_signatures(&block.transactions)),
        }
    }

    /// Walks down the keys of an address from `slot`, and adds the confirmed ones until there
    /// are `limit`.
    fn walk_address_signatures(
        &self,
        confirmed_unrooted_slots: &Vec<Slot>,
        primary_index: u64,
        address: Pubkey,
        slot: Slot,
        crossing_slot: Slot,
        stops_at_crossing: bool,
        lowest_slot: Slot,
        first_available: Slot,
        limit: usize,
        found: &mut Vec<(Slot, Signature)>,
    )
        ensures
            ({
                let keys = ordered_keys(self@.ledger.address_signatures);
                final(found)@ == walk_down(
                    self@.ledger,
                    confirmed_unrooted_slots@,
                    keys,
                    not_after(keys, walk_start(primary_index, address, slot)),
                    primary_index,
                    address,
                    crossing_slot,
                    stops_at_crossing,
                    lowest_slot,
                    first_available,
                    limit,
                    old(found)@,
                )
            }),
    {
        let ghost ledger = self@.ledger;
        let ghost keys = ordered_keys(ledger.address_signatures);
        let ghost un = confirmed_unrooted_slots@;
        let start = AddressKey {
            primary_index,
            address,
            slot,
            signature: Signature { w0: 0, w1: 0, w2: 0, w3: 0 },
        };
        let total: usize = self.ledger.address_signatures.len();
        let p: usize = self.ledger.address_signatures.lower_bound(&start);
        proof {
            lemma_lower(keys, start, p as int);
        }
        let mut n: usize = p;
        if p < total {
            let at = self.ledger.address_signatures.key_at(p);
            if at == start {
                assert(keys[p as int] == start);
                n = p + 1;
            }
        }
        proof {
            if n == p && keys.contains(start) {
                let j = choose|j: int| 0 <= j < keys.len() && keys[j] == start;
                AddressKey::lemma_irreflexive(start);
                if j < p {
                    assert(keys[j].before(start));
                } else if j > p {
                    assert(keys[p as int].before(keys[j]));
                }
            }
            assert(n == not_after(keys, start));
        }
        let ghost goal = walk_down(
            ledger,
            un,
            keys,
            n as int,
            primary_index,
            address,
            crossing_slot,
            stops_at_crossing,
            lowest_slot,
            first_available,
            limit,
            found@,
        );
        while found.len() < limit && n > 0
            invariant
                0 <= n <= keys.len(),
                ledger == self@.ledger,
                keys == ordered_keys(ledger.address_signatures),
                un == confirmed_unrooted_slots@,
                goal == walk_down(
                    ledger,
                    un,
                    keys,
                    n as int,
                    primary_index,
                    address,
                    crossing_slot,
                    stops_at_crossing,
                    lowest_slot,
                    first_available,
                    limit,
                    found@,
                ),
                start == walk_start(primary_index, address, slot),
                goal == walk_down(
                    ledger,
                    un,
                    keys,
                    not_after(keys, start),
                    primary_index,
                    address,
                    crossing_slot,
                    stops_at_crossing,
                    lowest_slot,
                    first_available,
                    limit,
                    old(found)@,
                ),
            decreases n,
        {
            let key = self.ledger.address_signatures.key_at(n - 1);
            if key.slot == crossing_slot {
                if stops_at_crossing {
                    return;
                }
            } else {
                if key.slot < lowest_slot {
                    return;
                }
                if key.primary_index == primary_index && key.address == address && key.slot
                    >= first_available {
                    if self.is_root(key.slot) || holds_slot(confirmed_unrooted_slots, key.slot) {
                        found.push((key.slot, key.signature));
                    }
                } else {
                    return;
                }
            }
            n = n - 1;
        }
    }

    /// What is known of some signatures.
    fn describe_signatures(
        &self,
        confirmed_unrooted_slots: &Vec<Slot>,
        pairs: &Vec<(Slot, Signature)>,
    ) -> (result: Result<Vec<ConfirmedTransactionStatusWithSignature>>)
        requires
            self@.lowest_cleanup_slot < u64::MAX,
        ensures
            infos_result(result) == signature_infos(self@, confirmed_unrooted_slots@, pairs@),
    {
        let ghost un = confirmed_unrooted_slots@;
        let ghost all = Seq::new(pairs@.len(), |i: int| signature_info(self@, un, pairs@[i]));
        let mut infos: Vec<ConfirmedTransactionStatusWithSignature> = Vec::new();
        let mut i: usize = 0;
        assert(info_views(infos@) =~= all.take(0));
        while i < pairs.len()
            invariant
                0 <= i <= pairs@.len(),
                self@.lowest_cleanup_slot < u64::MAX,
                un == confirmed_unrooted_slots@,
                all == Seq::new(pairs@.len(), |i: int| signature_info(self@, un, pairs@[i])),
                info_views(infos@) == all.take(i as int),
                forall|j: int| 0 <= j < i ==> !cleaned_up(self@, (#[trigger] pairs@[j]).0),
            decreases pairs@.len() - i,
        {
            let (slot, signature) = pairs[i];
            let transaction_status = self.get_transaction_status(
                signature,
                confirmed_unrooted_slots,
            );
            let err: Option<TransactionError> = match transaction_status {
                Some((_slot, status)) => status.err,
                None => None,
            };
            let memo = self.read_transaction_memos(signature);
            let block_time = match self.get_block_time(slot) {
                Ok(time) => time,
                Err(e) => {
                    assert(cleaned_up(self@, pairs@[i as int].0));
                    return Err(e);
                },
            };
            let ghost so_far = info_views(infos@);
            let info = ConfirmedTransactionStatusWithSignature {
                signature,
                slot,
                err,
                memo,
                block_time,
            };
            assert(info@ == all[i as int]);
            infos.push(info);
            assert(info_views(infos@) =~= so_far.push(info@));
            assert(info_views(infos@) =~= all.take(i + 1));
            i += 1;
        }
        assert(all.take(pairs@.len() as int) =~= all);
        Ok(infos)
    }

    /// At most `limit` signatures that name an address, newest first, with what is known of
    /// their transactions. The listing starts at `highest_slot`, or after the signature
    /// `before`, and ends before the signature `until`.
    pub fn get_confirmed_signatures_for_address2(
        &self,
        address: Pubkey,
        highest_slot: Slot,
        before: Option<Signature>,
        until: Option<Signature>,
        limit: usize,
    ) -> (result: Result<Vec<ConfirmedTransactionStatusWithSignature>>)
        requires
            self@.lowest_cleanup_slot < u64::MAX,
            self@.ledger.transaction_status_index.contains_key(
                other_index(self@.active_transaction_status_index),
            ),
            self@.ledger.meta.contains_key(highest_slot) ==> descends(
                self@.ledger.meta,
                highest_slot,
                self@.last_root + 1,
            ),
            before is Some ==> (transaction_status(
                self@,
                before->0,
                confirmed_unrooted(self@, highest_slot),
            ) matches Some(found) ==> block_readable(self@, found.0, false)),
            until is Some ==> (transaction_status(
                self@,
                until->0,
                confirmed_unrooted(self@, highest_slot),
            ) matches Some(found) ==> block_readable(self@, found.0, false)),
        ensures
            infos_result(result) == address_listing(
                self@,
                address,
                highest_slot,
                before,
                until,
                limit,
            ),
    {
        let confirmed_unrooted_slots = self.get_confirmed_unrooted_slots(highest_slot);
        let ghost un = confirmed_unrooted_slots@;
        let no_signatures: Vec<Signature> = Vec::new();
        assert(no_signatures@ =~= Seq::empty());
        let (slot, before_excluded): (Slot, Vec<Signature>) = match before {
            None => (highest_slot, no_signatures),
            Some(before) => {
                match self.get_transaction_status(before, &confirmed_unrooted_slots) {
                    None => {
                        let none: Vec<ConfirmedTransactionStatusWithSignature> = Vec::new();
                        assert(info_views(none@) =~= Seq::empty());
                        return Ok(none);
                    },
                    Some((slot, _)) => {
                        let signatures = match self.get_sorted_block_signatures(slot) {
                            Ok(signatures) => signatures,
                            Err(e) => {
                                return Err(e);
                            },
                        };
                        let place: usize = find_place(&signatures, before);
                        let excluded = if place < signatures.len() {
                            let part = part_of(&signatures, 0, place + 1);
                            assert(part@ =~= up_to(signatures@, before));
                            part
                        } else {
                            signatures
                        };
                        (slot, excluded)
                    },
                }
            },
        };
        assert(listing_start(self@, un, highest_slot, before) == Ok::<
            Option<(Slot, Seq<Signature>)>,
            BlockstoreError,
        >(Some((slot, before_excluded@))));
        let none_excluded: Vec<Signature> = Vec::new();
        assert(none_excluded@ =~= Seq::empty());
        let (lowest_slot, until_excluded): (Slot, Vec<Signature>) = match until {
            None => (0, none_excluded),
            Some(until) => {
                match self.get_transaction_status(until, &confirmed_unrooted_slots) {
                    None => (0, none_excluded),
                    Some((slot, _)) => {
                        let signatures = match self.get_sorted_block_signatures(slot) {
                            Ok(signatures) => signatures,
                            Err(e) => {
                                return Err(e);
                            },
                        };
                        let n: usize = signatures.len();
                        let place: usize = find_place(&signatures, until);
                        let excluded = if place < n {
                            let part = part_of(&signatures, place, n);
                            assert(part@ =~= starting_at(signatures@, until));
                            part
                        } else {
                            signatures
                        };
                        (slot, excluded)
                    },
                }
            },
        };
        assert(listing_end(self@, un, until) == Ok::<(Slot, Seq<Signature>), BlockstoreError>(
            (lowest_slot, until_excluded@),
        ));
        let first_available_block: u64 = self.get_first_available_block();
        let own = reverse_pairs(&self.find_address_signatures_for_slot(address, slot));
        let mut address_signatures = exclude_signatures(&own, &before_excluded);
        let starting_primary_index: u64 = self.active_transaction_status_index;
        let next_primary_index: u64 = if starting_primary_index == 0 {
            1
        } else {
            0
        };
        let next_max_slot: u64 = match self.ledger.transaction_status_index.get(
            &next_primary_index,
        ) {
            Some(index) => index.max_slot,
            None => {
                assert(false);
                0
            },
        };
        if slot > next_max_slot {
            self.walk_address_signatures(
                &confirmed_unrooted_slots,
                starting_primary_index,
                address,
                slot,
                next_max_slot,
                true,
                lowest_slot,
                first_available_block,
                limit,
                &mut address_signatures,
            );
            if next_max_slot >= lowest_slot {
                let mut crossing = reverse_pairs(
                    &self.find_address_signatures_for_slot(address, next_max_slot),
                );
                address_signatures.append(&mut crossing);
            }
        }
        self.walk_address_signatures(
            &confirmed_unrooted_slots,
            next_primary_index,
            address,
            slot,
            next_max_slot,
            false,
            lowest_slot,
            first_available_block,
            limit,
            &mut address_signatures,
        );
        assert(address_signatures@ == listed_signatures(
            self@,
            un,
            address,
            slot,
            before_excluded@,
            lowest_slot,
            limit,
        ));
        let mut listed = exclude_signatures(&address_signatures, &until_excluded);
        listed.truncate(limit);
        assert(listed@ =~= at_most(
            without_signatures(address_signatures@, until_excluded@),
            limit,
        ));
        self.describe_signatures(&confirmed_unrooted_slots, &listed)
    }
}

/// The models of listed signatures.
pub open spec fn info_views(infos: Seq<ConfirmedTransactionStatusWithSignature>) -> Seq<
    ConfirmedTransactionStatusWithSignatureView,
> {
    Seq::new(infos.len(), |i: int| infos[i]@)
}

/// The model of the result of a listing.
pub open spec fn infos_result(result: Result<Vec<ConfirmedTransactionStatusWithSignature>>) -> core::result::Result<
    Seq<ConfirmedTransactionStatusWithSignatureView>,
    BlockstoreError,
> {
    match result {
        Ok(infos) => Ok(info_views(infos@)),
        Err(e) => Err(e),
    }
}

} // verus!
