//! Transaction statuses and the two primary indexes that they are kept under.
//!
//! At any time statuses are written under one of the two indexes. The other is frozen; once
//! all its slots have been purged it is emptied as a whole, and the two change places.

use vstd::prelude::*;
use crate::blockstore::{Blockstore, BlockstoreView};
use crate::column::{lemma_lower, lower, ordered_keys, orders, splits_at, ColumnKey, Duplicate};
use crate::ledger::{op_in_range, op_views, LedgerView, WriteOp, WriteOpView};
use crate::meta::{AddressSignatureMeta, TransactionStatusIndexMeta};
use crate::metrics::bump_u64;
use crate::records::{StoredTransactionStatus, TransactionStatusMeta, TransactionStatusMetaView};
use crate::roots::rooted;
use crate::types::{zero_signature, AddressKey, Pubkey, Signature, Slot, StatusKey};

verus! {

/// An index that nothing was written to.
pub open spec fn fresh_index() -> TransactionStatusIndexMeta {
    TransactionStatusIndexMeta { max_slot: 0, frozen: false }
}

/// The status of a transaction that did nothing.
pub open spec fn empty_status() -> TransactionStatusMetaView {
    TransactionStatusMetaView {
        err: None,
        fee: 0,
        pre_balances: Seq::empty(),
        post_balances: Seq::empty(),
        details: Seq::empty(),
    }
}

/// The writes that set up the two indexes, and a record behind both of them.
pub open spec fn index_setup_writes() -> Seq<WriteOpView> {
    seq![
        WriteOpView::PutTransactionStatusIndex(0, fresh_index()),
        WriteOpView::PutTransactionStatusIndex(1, fresh_index()),
        WriteOpView::PutTransactionStatus(
            StatusKey { primary_index: 2, signature: zero_signature(), slot: 0 },
            Some(empty_status()),
        ),
        WriteOpView::PutAddressSignature(
            AddressKey {
                primary_index: 2,
                address: Pubkey { w0: 0, w1: 0 },
                slot: 0,
                signature: zero_signature(),
            },
            AddressSignatureMeta { writeable: false },
        ),
    ]
}

/// Both indexes are set up, or neither is.
pub open spec fn indexes_paired(ledger: LedgerView) -> bool {
    ledger.transaction_status_index.contains_key(0)
        ==> ledger.transaction_status_index.contains_key(1)
}

/// The index that can be emptied once everything below `to_slot` is purged: a frozen one
/// without statuses at or above `to_slot`.
pub open spec fn index_to_purge(ledger: LedgerView, to_slot: Slot) -> Option<u64> {
    let index0 = ledger.transaction_status_index[0];
    let index1 = ledger.transaction_status_index[1];
    if !ledger.transaction_status_index.contains_key(0) || (!index0.frozen && !index1.frozen) {
        None
    } else if index0.frozen && to_slot > index0.max_slot {
        Some(0)
    } else if index1.frozen && to_slot > index1.max_slot {
        Some(1)
    } else {
        None
    }
}

/// The index with the other state. An index that is no longer frozen is empty.
pub open spec fn flipped(index: TransactionStatusIndexMeta) -> TransactionStatusIndexMeta {
    TransactionStatusIndexMeta {
        max_slot: if index.frozen {
            0
        } else {
            index.max_slot
        },
        frozen: !index.frozen,
    }
}

/// The writes of a toggle: the first freezes index 0; later ones make the two indexes change
/// places, where one can be emptied.
pub open spec fn toggle_writes(ledger: LedgerView, to_slot: Slot) -> Seq<WriteOpView> {
    let index0 = ledger.transaction_status_index[0];
    let index1 = ledger.transaction_status_index[1];
    if !ledger.transaction_status_index.contains_key(0) {
        Seq::empty()
    } else if !index0.frozen && !index1.frozen {
        seq![
            WriteOpView::PutTransactionStatusIndex(
                0,
                TransactionStatusIndexMeta { frozen: true, ..index0 },
            ),
        ]
    } else if index_to_purge(ledger, to_slot) is Some {
        seq![
            WriteOpView::PutTransactionStatusIndex(0, flipped(index0)),
            WriteOpView::PutTransactionStatusIndex(1, flipped(index1)),
        ]
    } else {
        Seq::empty()
    }
}

/// The active index after a toggle.
pub open spec fn active_after_toggle(ledger: LedgerView, active: u64, to_slot: Slot) -> u64 {
    let index0 = ledger.transaction_status_index[0];
    let index1 = ledger.transaction_status_index[1];
    if !ledger.transaction_status_index.contains_key(0) {
        active
    } else if !index0.frozen && !index1.frozen {
        1
    } else {
        match index_to_purge(ledger, to_slot) {
            Some(i) => i,
            None => active,
        }
    }
}

/// A status of `slot` can be written: the active index is set up, and it is not frozen where
/// the slot is above all of its slots.
pub open spec fn can_write_status(store: BlockstoreView, slot: Slot) -> bool {
    let i = store.active_transaction_status_index;
    let index = store.ledger.transaction_status_index[i];
    store.ledger.transaction_status_index.contains_key(i) && (slot > index.max_slot
        ==> !index.frozen)
}

impl BlockstoreView {
    /// The store after the active index was told that a status of `slot` comes.
    pub open spec fn with_index_raised(self, slot: Slot) -> Self {
        let i = self.active_transaction_status_index;
        let index = self.ledger.transaction_status_index[i];
        if slot > index.max_slot {
            self.commit_one(
                WriteOpView::PutTransactionStatusIndex(
                    i,
                    TransactionStatusIndexMeta { max_slot: slot, ..index },
                ),
            )
        } else {
            self
        }
    }
}

/// A write for each address that a transaction names.
pub open spec fn address_writes(
    i: u64,
    addresses: Seq<Pubkey>,
    slot: Slot,
    signature: Signature,
    writeable: bool,
) -> Seq<WriteOpView> {
    Seq::new(
        addresses.len(),
        |j: int|
            WriteOpView::PutAddressSignature(
                AddressKey { primary_index: i, address: addresses[j], slot, signature },
                AddressSignatureMeta { writeable },
            ),
    )
}

/// The writes of a transaction's status under index `i`.
pub open spec fn status_writes(
    i: u64,
    slot: Slot,
    signature: Signature,
    writable_keys: Seq<Pubkey>,
    readonly_keys: Seq<Pubkey>,
    status: TransactionStatusMetaView,
) -> Seq<WriteOpView> {
    seq![
        WriteOpView::PutTransactionStatus(
            StatusKey { primary_index: i, signature, slot },
            Some(status),
        ),
    ] + address_writes(i, writable_keys, slot, signature, true) + address_writes(
        i,
        readonly_keys,
        slot,
        signature,
        false,
    )
}

/// The status of a transaction in a slot, under index 0 or else under index 1.
pub open spec fn status_at(
    ledger: LedgerView,
    signature: Signature,
    slot: Slot,
) -> Option<TransactionStatusMetaView> {
    let key0 = StatusKey { primary_index: 0, signature, slot };
    let key1 = StatusKey { primary_index: 1, signature, slot };
    if ledger.transaction_status.contains_key(key0) {
        ledger.transaction_status[key0]
    } else if ledger.transaction_status.contains_key(key1) {
        ledger.transaction_status[key1]
    } else {
        None
    }
}

/// The slot is rooted, or one of those given as confirmed.
pub open spec fn confirmed(ledger: LedgerView, unrooted: Seq<Slot>, slot: Slot) -> bool {
    rooted(ledger, slot) || unrooted.contains(slot)
}

/// `slot` is confirmed, not below `lowest`, and has a status of the transaction under index
/// `i`.
pub open spec fn has_status(
    ledger: LedgerView,
    i: u64,
    signature: Signature,
    lowest: int,
    unrooted: Seq<Slot>,
    slot: Slot,
) -> bool {
    slot >= lowest && ledger.transaction_status.contains_key(
        StatusKey { primary_index: i, signature, slot },
    ) && confirmed(ledger, unrooted, slot)
}

/// The lowest confirmed slot, not below `lowest`, that has a status of the transaction under
/// index `i`.
pub open spec fn first_status_slot(
    ledger: LedgerView,
    i: u64,
    signature: Signature,
    lowest: int,
    unrooted: Seq<Slot>,
) -> Option<Slot> {
    if exists|s: u64| has_status(ledger, i, signature, lowest, unrooted, s) {
        Some(choose|s: u64| is_first_status(ledger, i, signature, lowest, unrooted, s))
    } else {
        None
    }
}

/// `s` is the lowest slot that has a status.
pub open spec fn is_first_status(
    ledger: LedgerView,
    i: u64,
    signature: Signature,
    lowest: int,
    unrooted: Seq<Slot>,
    s: Slot,
) -> bool {
    has_status(ledger, i, signature, lowest, unrooted, s) && forall|t: u64| #[trigger]
        has_status(ledger, i, signature, lowest, unrooted, t) ==> s <= t
}

/// The status of a transaction, with its slot: that of the lowest confirmed slot above the
/// lowest cleanup slot, under index 0 or else under index 1.
pub open spec fn transaction_status(
    store: BlockstoreView,
    signature: Signature,
    unrooted: Seq<Slot>,
) -> Option<(Slot, TransactionStatusMetaView)> {
    let ledger = store.ledger;
    let lowest = store.lowest_cleanup_slot + 1;
    match first_status_slot(ledger, 0, signature, lowest, unrooted) {
        Some(s) => status_with_slot(ledger, 0, signature, s),
        None => match first_status_slot(ledger, 1, signature, lowest, unrooted) {
            Some(s) => status_with_slot(ledger, 1, signature, s),
            None => None,
        },
    }
}

/// A stored status, where it can be decoded, with its slot.
pub open spec fn status_with_slot(ledger: LedgerView, i: u64, signature: Signature, slot: Slot) -> Option<
    (Slot, TransactionStatusMetaView),
> {
    match ledger.transaction_status[StatusKey { primary_index: i, signature, slot }] {
        Some(status) => Some((slot, status)),
        None => None,
    }
}

/// How many keys, from position `p` on, are looked at to find a status under index `i`: those
/// of the transaction up to the first confirmed one, or up to the first key of another.
pub open spec fn keys_looked_at(
    ledger: LedgerView,
    keys: Seq<StatusKey>,
    p: int,
    i: u64,
    signature: Signature,
    unrooted: Seq<Slot>,
) -> nat
    decreases keys.len() - p,
{
    if p < 0 || p >= keys.len() {
        0
    } else if keys[p].primary_index != i || keys[p].signature != signature || confirmed(
        ledger,
        unrooted,
        keys[p].slot,
    ) {
        1
    } else {
        1 + keys_looked_at(ledger, keys, p + 1, i, signature, unrooted)
    }
}

/// How many keys are looked at to find a status under index `i`.
pub open spec fn index_lookups(
    store: BlockstoreView,
    i: u64,
    signature: Signature,
    unrooted: Seq<Slot>,
) -> nat {
    let keys = ordered_keys(store.ledger.transaction_status);
    let lowest = (store.lowest_cleanup_slot + 1) as u64;
    let start = StatusKey { primary_index: i, signature, slot: lowest };
    keys_looked_at(store.ledger, keys, lower(keys, start), i, signature, unrooted)
}

/// How many keys are looked at to find a status.
pub open spec fn status_lookups(
    store: BlockstoreView,
    signature: Signature,
    unrooted: Seq<Slot>,
) -> nat {
    let lowest = store.lowest_cleanup_slot + 1;
    let first = index_lookups(store, 0, signature, unrooted);
    if first_status_slot(store.ledger, 0, signature, lowest, unrooted) is Some {
        first
    } else {
        first + index_lookups(store, 1, signature, unrooted)
    }
}

/// A count, up to the highest that can be told.
pub open spec fn told(n: nat) -> u64 {
    if n <= u64::MAX {
        n as u64
    } else {
        u64::MAX
    }
}

/// Whether `slots` holds `slot`.
pub fn holds_slot(slots: &Vec<Slot>, slot: Slot) -> (result: bool)
    ensures
        result == slots@.contains(slot),
{
    let mut i: usize = 0;
    while i < slots.len()
        invariant
            0 <= i <= slots@.len(),
            forall|j: int| 0 <= j < i ==> slots@[j] != slot,
        decreases slots@.len() - i,
    {
        if slots[i] == slot {
            assert(slots@[i as int] == slot);
            return true;
        }
        i += 1;
    }
    false
}

fn push_address_writes(
    write_batch: &mut Vec<WriteOp>,
    i: u64,
    addresses: &Vec<Pubkey>,
    slot: Slot,
    signature: Signature,
    writeable: bool,
)
    ensures
        op_views(final(write_batch)@) == op_views(old(write_batch)@) + address_writes(
            i,
            addresses@,
            slot,
            signature,
            writeable,
        ),
{
    let ghost ops0 = op_views(write_batch@);
    let ghost all = address_writes(i, addresses@, slot, signature, writeable);
    let mut j: usize = 0;
    assert(ops0 + all.take(0) =~= ops0);
    while j < addresses.len()
        invariant
            0 <= j <= addresses@.len(),
            all == address_writes(i, addresses@, slot, signature, writeable),
            op_views(write_batch@) == ops0 + all.take(j as int),
        decreases addresses@.len() - j,
    {
        let ghost ops = op_views(write_batch@);
        write_batch.push(
            WriteOp::PutAddressSignature(
                AddressKey { primary_index: i, address: addresses[j], slot, signature },
                AddressSignatureMeta { writeable },
            ),
        );
        assert(op_views(write_batch@) =~= ops.push(all[j as int]));
        assert(op_views(write_batch@) =~= ops0 + all.take(j + 1));
        j += 1;
    }
    assert(all.take(addresses@.len() as int) =~= all);
}

impl Blockstore {
    /// Sets up the two primary indexes. A record behind both of them keeps the walk through the
    /// columns short.
    pub fn initialize_transaction_status_index(&mut self)
        ensures
            final(self)@ == old(self)@.commit(index_setup_writes()),
    {
        let mut write_batch: Vec<WriteOp> = Vec::new();
        let fresh = TransactionStatusIndexMeta { max_slot: 0, frozen: false };
        let zero = Signature { w0: 0, w1: 0, w2: 0, w3: 0 };
        write_batch.push(WriteOp::PutTransactionStatusIndex(0, fresh));
        write_batch.push(WriteOp::PutTransactionStatusIndex(1, fresh));
        let status = TransactionStatusMeta {
            err: None,
            fee: 0,
            pre_balances: Vec::new(),
            post_balances: Vec::new(),
            details: Vec::new(),
        };
        assert(status@ =~= empty_status());
        write_batch.push(
            WriteOp::PutTransactionStatus(
                StatusKey { primary_index: 2, signature: zero, slot: 0 },
                StoredTransactionStatus { meta: Some(status) },
            ),
        );
        write_batch.push(
            WriteOp::PutAddressSignature(
                AddressKey {
                    primary_index: 2,
                    address: Pubkey { w0: 0, w1: 0 },
                    slot: 0,
                    signature: zero,
                },
                AddressSignatureMeta { writeable: false },
            ),
        );
        assert(op_views(write_batch@) =~= index_setup_writes());
        self.commit(write_batch);
    }

    /// Makes the two primary indexes change places where the frozen one has no statuses at or
    /// above `to_slot`, and returns the index to empty. The first toggle freezes index 0.
    pub fn toggle_transaction_status_index(
        &self,
        batch: &mut Vec<WriteOp>,
        active_transaction_status_index: &mut u64,
        to_slot: Slot,
    ) -> (result: Option<u64>)
        requires
            indexes_paired(self@.ledger),
        ensures
            result == index_to_purge(self@.ledger, to_slot),
            op_views(final(batch)@) == op_views(old(batch)@) + toggle_writes(
                self@.ledger,
                to_slot,
            ),
            *final(active_transaction_status_index) == active_after_toggle(
                self@.ledger,
                *old(active_transaction_status_index),
                to_slot,
            ),
    {
        let ghost ops = op_views(batch@);
        let (k0, k1): (u64, u64) = (0, 1);
        let mut index0: TransactionStatusIndexMeta = match self.ledger.transaction_status_index.get(
            &k0,
        ) {
            None => {
                assert(ops + toggle_writes(self@.ledger, to_slot) =~= ops);
                return None;
            },
            Some(index) => *index,
        };
        let mut index1: TransactionStatusIndexMeta = match self.ledger.transaction_status_index.get(
            &k1,
        ) {
            None => {
                assert(false);
                return None;
            },
            Some(index) => *index,
        };
        if !index0.frozen && !index1.frozen {
            index0.frozen = true;
            *active_transaction_status_index = 1;
            batch.push(WriteOp::PutTransactionStatusIndex(0, index0));
            assert(op_views(batch@) =~= ops + toggle_writes(self@.ledger, to_slot));
            None
        } else {
            let target: Option<u64> = if index0.frozen && to_slot > index0.max_slot {
                Some(0)
            } else if index1.frozen && to_slot > index1.max_slot {
                Some(1)
            } else {
                None
            };
            if let Some(i) = target {
                *active_transaction_status_index = i;
                if index0.frozen {
                    index0.max_slot = 0;
                }
                index0.frozen = !index0.frozen;
                batch.push(WriteOp::PutTransactionStatusIndex(0, index0));
                if index1.frozen {
                    index1.max_slot = 0;
                }
                index1.frozen = !index1.frozen;
                batch.push(WriteOp::PutTransactionStatusIndex(1, index1));
            }
            assert(op_views(batch@) =~= ops + toggle_writes(self@.ledger, to_slot));
            target
        }
    }

    /// The index to write a status of `slot` under. It learns of the slot.
    pub fn get_primary_index_to_write(&mut self, slot: Slot) -> (result: u64)
        requires
            can_write_status(old(self)@, slot),
        ensures
            result == old(self)@.active_transaction_status_index,
            final(self)@ == old(self)@.with_index_raised(slot),
    {
        let i: u64 = self.active_transaction_status_index;
        let mut index_meta: TransactionStatusIndexMeta =
            match self.ledger.transaction_status_index.get(&i) {
            Some(index) => *index,
            None => {
                assert(false);
                return i;
            },
        };
        if slot > index_meta.max_slot {
            index_meta.max_slot = slot;
            self.commit_one(WriteOp::PutTransactionStatusIndex(i, index_meta));
        }
        i
    }

    /// The status of a transaction in a slot.
    pub fn read_transaction_status(&self, signature: Signature, slot: Slot) -> (result: Option<
        TransactionStatusMeta,
    >)
        ensures
            (match result {
                Some(status) => Some(status@),
                None => None,
            }) == status_at(self@.ledger, signature, slot),
    {
        match self.ledger.transaction_status.get(
            &StatusKey { primary_index: 0, signature, slot },
        ) {
            Some(stored) => stored.decoded(),
            None => match self.ledger.transaction_status.get(
                &StatusKey { primary_index: 1, signature, slot },
            ) {
                Some(stored) => stored.decoded(),
                None => None,
            },
        }
    }

    /// Keeps the status of a transaction, and that it names the given addresses.
    pub fn write_transaction_status(
        &mut self,
        slot: Slot,
        signature: Signature,
        writable_keys: &Vec<Pubkey>,
        readonly_keys: &Vec<Pubkey>,
        status: TransactionStatusMeta,
    )
        requires
            can_write_status(old(self)@, slot),
        ensures
            final(self)@ == old(self)@.with_index_raised(slot).commit(
                status_writes(
                    old(self)@.active_transaction_status_index,
                    slot,
                    signature,
                    writable_keys@,
                    readonly_keys@,
                    status@,
                ),
            ),
    {
        let primary_index: u64 = self.get_primary_index_to_write(slot);
        let mut write_batch: Vec<WriteOp> = Vec::new();
        write_batch.push(
            WriteOp::PutTransactionStatus(
                StatusKey { primary_index, signature, slot },
                StoredTransactionStatus { meta: Some(status) },
            ),
        );
        push_address_writes(&mut write_batch, primary_index, writable_keys, slot, signature, true);
        push_address_writes(
            &mut write_batch,
            primary_index,
            readonly_keys,
            slot,
            signature,
            false,
        );
        proof {
            let all = status_writes(
                primary_index,
                slot,
                signature,
                writable_keys@,
                readonly_keys@,
                status@,
            );
            assert(op_views(write_batch@) =~= all);
            assert forall|j: int| 0 <= j < write_batch@.len() implies op_in_range(
                #[trigger] write_batch@[j]@,
            ) by {
                assert(all[j] == write_batch@[j]@);
            }
        }
        self.commit(write_batch);
    }

    /// The memo of a transaction.
    pub fn read_transaction_memos(&self, signature: Signature) -> (result: Option<String>)
        ensures
            (match result {
                Some(memo) => Some(memo@),
                None => None,
            }) == memo_of(self@.ledger, signature),
    {
        match self.ledger.transaction_memos.get(&signature) {
            Some(memo) => Some(memo.duplicate()),
            None => None,
        }
    }

    /// Keeps the memo of a transaction.
    pub fn write_transaction_memos(&mut self, signature: &Signature, memos: String)
        ensures
            final(self)@ == old(self)@.commit_one(
                WriteOpView::PutTransactionMemo(*signature, memos@),
            ),
    {
        self.commit_one(WriteOp::PutTransactionMemo(*signature, memos));
    }

    /// The lowest slot that can be read of the transaction columns.
    pub fn ensure_lowest_cleanup_slot(&self) -> (result: Slot)
        requires
            self@.lowest_cleanup_slot < u64::MAX,
        ensures
            result == self@.lowest_cleanup_slot + 1,
    {
        self.lowest_cleanup_slot + 1
    }

    /// Looks for a status under one index. Returns its slot and the number of keys looked at,
    /// on top of `counter`.
    fn find_status_slot(
        &self,
        primary_index: u64,
        signature: Signature,
        lowest_available_slot: Slot,
        confirmed_unrooted_slots: &Vec<Slot>,
        counter: u64,
    ) -> (result: (Option<Slot>, u64))
        requires
            lowest_available_slot == self@.lowest_cleanup_slot + 1,
        ensures
            result.0 == first_status_slot(
                self@.ledger,
                primary_index,
                signature,
                lowest_available_slot as int,
                confirmed_unrooted_slots@,
            ),
            result.1 == told(
                counter as nat + index_lookups(
                    self@,
                    primary_index,
                    signature,
                    confirmed_unrooted_slots@,
                ),
            ),
    {
        let ghost ledger = self@.ledger;
        let ghost keys = ordered_keys(ledger.transaction_status);
        let ghost un = confirmed_unrooted_slots@;
        let low: Slot = lowest_available_slot;
        let start = StatusKey { primary_index, signature, slot: low };
        let n: usize = self.ledger.transaction_status.len();
        let p: usize = self.ledger.transaction_status.lower_bound(&start);
        proof {
            lemma_lower(keys, start, p as int);
        }
        let mut visits: u64 = counter;
        let mut i: usize = p;
        let ghost mut seen: nat = 0;
        while i < n
            invariant
                p <= i <= n,
                n == keys.len(),
                ledger == self@.ledger,
                keys == ordered_keys(ledger.transaction_status),
                orders(keys, ledger.transaction_status),
                un == confirmed_unrooted_slots@,
                splits_at(keys, start, p as int),
                lower(keys, start) == p,
                start == (StatusKey { primary_index, signature, slot: low }),
                low == lowest_available_slot,
                low == self@.lowest_cleanup_slot + 1,
                visits == told(counter as nat + seen),
                keys_looked_at(ledger, keys, p as int, primary_index, signature, un) == seen
                    + keys_looked_at(ledger, keys, i as int, primary_index, signature, un),
                forall|j: int|
                    p <= j < i ==> (#[trigger] keys[j]).primary_index == primary_index
                        && keys[j].signature == signature && !confirmed(ledger, un, keys[j].slot),
            decreases n - i,
        {
            let key = self.ledger.transaction_status.key_at(i);
            visits = bump_u64(visits);
            proof {
                seen = seen + 1;
            }
            if key.primary_index != primary_index || key.signature != signature {
                proof {
                    assert forall|t: u64| !has_status(
                        ledger,
                        primary_index,
                        signature,
                        low as int,
                        un,
                        t,
                    ) by {
                        lemma_no_status_here(
                            ledger,
                            keys,
                            start,
                            p as int,
                            i as int,
                            un,
                            t,
                        );
                    }
                }
                return (None, visits);
            }
            if self.is_root(key.slot) || holds_slot(confirmed_unrooted_slots, key.slot) {
                proof {
                    assert(!keys[i as int].before(start));
                    assert(keys[i as int] == key);
                    assert(has_status(
                        ledger,
                        primary_index,
                        signature,
                        low as int,
                        un,
                        key.slot,
                    ));
                    assert forall|t: u64| #[trigger]
                        has_status(
                            ledger,
                            primary_index,
                            signature,
                            low as int,
                            un,
                            t,
                        ) implies key.slot <= t by {
                        let k = StatusKey { primary_index, signature, slot: t };
                        assert(keys.contains(k));
                        let j = choose|j: int| 0 <= j < keys.len() && keys[j] == k;
                        if j < p {
                            assert(keys[j].before(start));
                        } else if j < i {
                            assert(!confirmed(ledger, un, keys[j].slot));
                        } else if j > i {
                            assert(keys[i as int].before(keys[j]));
                        }
                    }
                    lemma_first_status(
                        ledger,
                        primary_index,
                        signature,
                        low as int,
                        un,
                        key.slot,
                    );
                }
                return (Some(key.slot), visits);
            }
            i += 1;
        }
        proof {
            assert forall|t: u64| !has_status(
                ledger,
                primary_index,
                signature,
                low as int,
                un,
                t,
            ) by {
                lemma_no_status_here(ledger, keys, start, p as int, n as int, un, t);
            }
        }
        (None, visits)
    }

    /// The status of a transaction, with its slot, and the number of keys looked at.
    pub fn get_transaction_status_with_counter(
        &self,
        signature: Signature,
        confirmed_unrooted_slots: &Vec<Slot>,
    ) -> (result: (Option<(Slot, TransactionStatusMeta)>, u64))
        requires
            self@.lowest_cleanup_slot < u64::MAX,
        ensures
            optional_status(result.0) == transaction_status(
                self@,
                signature,
                confirmed_unrooted_slots@,
            ),
            result.1 == told(status_lookups(self@, signature, confirmed_unrooted_slots@)),
    {
        let lowest_available_slot: u64 = self.ensure_lowest_cleanup_slot();
        let (slot0, counter) = self.find_status_slot(
            0,
            signature,
            lowest_available_slot,
            confirmed_unrooted_slots,
            0,
        );
        if let Some(slot) = slot0 {
            proof {
                lemma_first_status_found(
                    self@.ledger,
                    0,
                    signature,
                    lowest_available_slot as int,
                    confirmed_unrooted_slots@,
                );
            }
            return (self.status_in(0, signature, slot), counter);
        }
        let (slot1, counter) = self.find_status_slot(
            1,
            signature,
            lowest_available_slot,
            confirmed_unrooted_slots,
            counter,
        );
        if let Some(slot) = slot1 {
            proof {
                lemma_first_status_found(
                    self@.ledger,
                    1,
                    signature,
                    lowest_available_slot as int,
                    confirmed_unrooted_slots@,
                );
            }
            return (self.status_in(1, signature, slot), counter);
        }
        (None, counter)
    }

    fn status_in(&self, i: u64, signature: Signature, slot: Slot) -> (result: Option<
        (Slot, TransactionStatusMeta),
    >)
        requires
            self@.ledger.transaction_status.contains_key(
                StatusKey { primary_index: i, signature, slot },
            ),
        ensures
            optional_status(result) == status_with_slot(self@.ledger, i, signature, slot),
    {
        match self.ledger.transaction_status.get(
            &StatusKey { primary_index: i, signature, slot },
        ) {
            Some(stored) => match stored.decoded() {
                Some(status) => Some((slot, status)),
                None => None,
            },
            None => None,
        }
    }

    /// The status of a transaction, with its slot, where that is rooted.
    pub fn get_rooted_transaction_status(&self, signature: Signature) -> (result: Option<
        (Slot, TransactionStatusMeta),
    >)
        requires
            self@.lowest_cleanup_slot < u64::MAX,
        ensures
            optional_status(result) == transaction_status(self@, signature, Seq::empty()),
    {
        let none: Vec<Slot> = Vec::new();
        assert(none@ =~= Seq::empty());
        self.get_transaction_status(signature, &none)
    }

    /// The status of a transaction, with its slot, where that is rooted or one of those given.
    pub fn get_transaction_status(
        &self,
        signature: Signature,
        confirmed_unrooted_slots: &Vec<Slot>,
    ) -> (result: Option<(Slot, TransactionStatusMeta)>)
        requires
            self@.lowest_cleanup_slot < u64::MAX,
        ensures
            optional_status(result) == transaction_status(
                self@,
                signature,
                confirmed_unrooted_slots@,
            ),
    {
        self.get_transaction_status_with_counter(signature, confirmed_unrooted_slots).0
    }
}

/// The memo of a transaction, where there is one.
pub open spec fn memo_of(ledger: LedgerView, signature: Signature) -> Option<Seq<char>> {
    if ledger.transaction_memos.contains_key(signature) {
        Some(ledger.transaction_memos[signature])
    } else {
        None
    }
}

/// The model of a status with its slot.
pub open spec fn optional_status(status: Option<(Slot, TransactionStatusMeta)>) -> Option<
    (Slot, TransactionStatusMetaView),
> {
    match status {
        Some(s) => Some((s.0, s.1@)),
        None => None,
    }
}

proof fn lemma_first_status(
    ledger: LedgerView,
    i: u64,
    signature: Signature,
    lowest: int,
    unrooted: Seq<Slot>,
    s: Slot,
)
    requires
        is_first_status(ledger, i, signature, lowest, unrooted, s),
    ensures
        first_status_slot(ledger, i, signature, lowest, unrooted) == Some(s),
{
    let c = choose|c: u64| is_first_status(ledger, i, signature, lowest, unrooted, c);
    assert(is_first_status(ledger, i, signature, lowest, unrooted, c));
    assert(has_status(ledger, i, signature, lowest, unrooted, c));
    assert(has_status(ledger, i, signature, lowest, unrooted, s));
}

pub proof fn lemma_first_status_found(
    ledger: LedgerView,
    i: u64,
    signature: Signature,
    lowest: int,
    unrooted: Seq<Slot>,
)
    requires
        first_status_slot(ledger, i, signature, lowest, unrooted) is Some,
    ensures
        has_status(
            ledger,
            i,
            signature,
            lowest,
            unrooted,
            first_status_slot(ledger, i, signature, lowest, unrooted)->0,
        ),
{
    let s = choose|s: u64| has_status(ledger, i, signature, lowest, unrooted, s);
    lemma_least_status(ledger, i, signature, lowest, unrooted, s);
}

/// Where some slot has a status, there is a lowest one.
proof fn lemma_least_status(
    ledger: LedgerView,
    i: u64,
    signature: Signature,
    lowest: int,
    unrooted: Seq<Slot>,
    s: Slot,
)
    requires
        has_status(ledger, i, signature, lowest, unrooted, s),
    ensures
        exists|t: u64| is_first_status(ledger, i, signature, lowest, unrooted, t),
    decreases s,
{
    if exists|t: u64| #[trigger] has_status(ledger, i, signature, lowest, unrooted, t) && t < s {
        let t = choose|t: u64| #[trigger]
            has_status(ledger, i, signature, lowest, unrooted, t) && t < s;
        lemma_least_status(ledger, i, signature, lowest, unrooted, t);
    } else {
        assert(is_first_status(ledger, i, signature, lowest, unrooted, s));
    }
}

proof fn lemma_no_status_here(
    ledger: LedgerView,
    keys: Seq<StatusKey>,
    start: StatusKey,
    p: int,
    i: int,
    unrooted: Seq<Slot>,
    t: Slot,
)
    requires
        orders(keys, ledger.transaction_status),
        splits_at(keys, start, p),
        p <= i <= keys.len(),
        forall|j: int|
            p <= j < i ==> (#[trigger] keys[j]).primary_index == start.primary_index
                && keys[j].signature == start.signature && !confirmed(
                ledger,
                unrooted,
                keys[j].slot,
            ),
        i < keys.len() ==> keys[i].primary_index != start.primary_index || keys[i].signature
            != start.signature,
    ensures
        !has_status(
            ledger,
            start.primary_index,
            start.signature,
            start.slot as int,
            unrooted,
            t,
        ),
{
    let k = StatusKey {
        primary_index: start.primary_index,
        signature: start.signature,
        slot: t,
    };
    if has_status(
        ledger,
        start.primary_index,
        start.signature,
        start.slot as int,
        unrooted,
        t,
    ) {
        assert(keys.contains(k));
        let j = choose|j: int| 0 <= j < keys.len() && keys[j] == k;
        if j < p {
            assert(keys[j].before(start));
        } else if j < i {
            assert(!confirmed(ledger, unrooted, keys[j].slot));
        } else if j > i {
            assert(keys[i].before(keys[j]));
            assert(!keys[i].before(start));
            StatusKey::lemma_total(keys[i], start);
            if start.before(keys[i]) {
                assert(keys[i].primary_index == start.primary_index);
                assert(start.signature.before(keys[i].signature) || start.signature
                    == keys[i].signature);
            }
        }
    }
}

} // verus!
