//! Per-slot records: slot metadata, shred indexes, erasure set metadata and the small
//! records of the other columns.

use vstd::prelude::*;
use crate::column::{lists, ordered, splits_at, ColumnKey, Duplicate, KeySet};
use crate::types::{Blockhash, Slot};

verus! {

/// What is known of a slot.
pub struct SlotMeta {
    /// The slot this is about.
    pub slot: Slot,
    /// The number of consecutive data shreds from index 0 on that have been received.
    pub consumed: u64,
    /// The highest received data shred index plus one.
    pub received: u64,
    /// When the first shred of this slot would have come, in milliseconds.
    pub first_shred_timestamp: u64,
    /// The index of the last shred of this slot, once known.
    pub last_index: Option<u64>,
    /// The slot this one builds on. `None` for an orphan.
    pub parent_slot: Option<Slot>,
    /// The slots that build on this one.
    pub next_slots: Vec<Slot>,
    /// Whether every slot from slot 0 up to this one's parent is full and chained.
    pub is_connected: bool,
    /// The indexes of the shreds that end a run of entries.
    pub completed_data_indexes: KeySet<u32>,
}

/// The model of a `SlotMeta`.
#[verifier::ext_equal]
pub struct SlotMetaView {
    pub slot: Slot,
    pub consumed: u64,
    pub received: u64,
    pub first_shred_timestamp: u64,
    pub last_index: Option<u64>,
    pub parent_slot: Option<Slot>,
    pub next_slots: Seq<Slot>,
    pub is_connected: bool,
    pub completed_data_indexes: Set<u32>,
}

impl View for SlotMeta {
    type V = SlotMetaView;

    open spec fn view(&self) -> SlotMetaView {
        SlotMetaView {
            slot: self.slot,
            consumed: self.consumed,
            received: self.received,
            first_shred_timestamp: self.first_shred_timestamp,
            last_index: self.last_index,
            parent_slot: self.parent_slot,
            next_slots: self.next_slots@,
            is_connected: self.is_connected,
            completed_data_indexes: self.completed_data_indexes@,
        }
    }
}

impl SlotMetaView {
    /// The metadata of a slot of which no shred has been seen.
    pub open spec fn fresh(slot: Slot, parent_slot: Option<Slot>) -> Self {
        SlotMetaView {
            slot,
            consumed: 0,
            received: 0,
            first_shred_timestamp: 0,
            last_index: None,
            parent_slot,
            next_slots: Seq::empty(),
            is_connected: slot == 0,
            completed_data_indexes: Set::empty(),
        }
    }

    /// Every shred up to the last one has been received.
    pub open spec fn is_full(self) -> bool {
        self.last_index is Some && self.consumed == self.last_index->0 + 1
    }

    /// The metadata after everything but the children has been dropped.
    pub open spec fn cleared(self) -> Self {
        SlotMetaView { next_slots: self.next_slots, ..SlotMetaView::fresh(self.slot, None) }
    }
}

/// Whether two vectors hold the same slots.
fn same_slots(a: &Vec<Slot>, b: &Vec<Slot>) -> (result: bool)
    ensures
        result == (a@ == b@),
{
    if a.len() != b.len() {
        return false;
    }
    let mut i: usize = 0;
    while i < a.len()
        invariant
            a.len() == b.len(),
            0 <= i <= a.len(),
            forall|j: int| 0 <= j < i ==> a@[j] == b@[j],
        decreases a.len() - i,
    {
        if a[i] != b[i] {
            return false;
        }
        i += 1;
    }
    assert(a@ =~= b@);
    true
}

impl SlotMeta {
    /// Metadata for a slot of which no shred has been seen.
    pub fn new(slot: Slot, parent_slot: Option<Slot>) -> (result: Self)
        ensures
            result@ == SlotMetaView::fresh(slot, parent_slot),
    {
        let result = SlotMeta {
            slot,
            consumed: 0,
            received: 0,
            first_shred_timestamp: 0,
            last_index: None,
            parent_slot,
            next_slots: Vec::new(),
            is_connected: slot == 0,
            completed_data_indexes: KeySet::new(),
        };
        assert(result@ =~= SlotMetaView::fresh(slot, parent_slot));
        result
    }

    /// Metadata for a slot whose parent is not known.
    pub fn new_orphan(slot: Slot) -> (result: Self)
        ensures
            result@ == SlotMetaView::fresh(slot, None),
    {
        SlotMeta::new(slot, None)
    }

    /// Whether every shred up to the last one has been received.
    pub fn is_full(&self) -> (result: bool)
        ensures
            result == self@.is_full(),
    {
        match self.last_index {
            Some(last) => self.consumed > 0 && self.consumed - 1 == last,
            None => false,
        }
    }

    /// Drops everything but the children.
    pub fn clear_unconfirmed_slot(&mut self)
        ensures
            final(self)@ == old(self)@.cleared(),
    {
        self.consumed = 0;
        self.received = 0;
        self.first_shred_timestamp = 0;
        self.last_index = None;
        self.parent_slot = None;
        self.is_connected = self.slot == 0;
        self.completed_data_indexes = KeySet::new();
        assert(self@ =~= old(self)@.cleared());
    }

    /// Whether two records hold the same.
    pub fn same(&self, other: &Self) -> (result: bool)
        ensures
            result == (self@ == other@),
    {
        let last_same = match (self.last_index, other.last_index) {
            (Some(a), Some(b)) => a == b,
            (None, None) => true,
            _ => false,
        };
        let parent_same = match (self.parent_slot, other.parent_slot) {
            (Some(a), Some(b)) => a == b,
            (None, None) => true,
            _ => false,
        };
        let next_same = same_slots(&self.next_slots, &other.next_slots);
        let completed_same = self.completed_data_indexes.same(&other.completed_data_indexes);
        let result = self.slot == other.slot && self.consumed == other.consumed && self.received
            == other.received && self.first_shred_timestamp == other.first_shred_timestamp
            && last_same && parent_same && next_same && self.is_connected == other.is_connected
            && completed_same;
        proof {
            if result {
                assert(self@ =~= other@);
            }
        }
        result
    }
}

impl Duplicate for SlotMeta {
    fn duplicate(&self) -> (result: Self) {
        let result = SlotMeta {
            slot: self.slot,
            consumed: self.consumed,
            received: self.received,
            first_shred_timestamp: self.first_shred_timestamp,
            last_index: self.last_index,
            parent_slot: self.parent_slot,
            next_slots: self.next_slots.duplicate(),
            is_connected: self.is_connected,
            completed_data_indexes: self.completed_data_indexes.duplicate(),
        };
        assert(result@ =~= self@);
        result
    }
}

/// How many of the indexes from `from` up to `to`, excluded, are in `set`.
pub open spec fn count_present(set: Set<u64>, from: int, to: int) -> nat
    decreases to - from,
{
    if to <= from {
        0
    } else {
        count_present(set, from, to - 1) + if set.contains((to - 1) as u64) {
            1nat
        } else {
            0nat
        }
    }
}

proof fn lemma_count_present(set: Set<u64>, from: u64, to: u64, p: int, q: int)
    requires
        from <= to,
        lists(ordered(set), set),
        splits_at(ordered(set), from, p),
        splits_at(ordered(set), to, q),
    ensures
        p <= q,
        count_present(set, from as int, to as int) == q - p,
    decreases to - from,
{
    let s = ordered(set);
    if p > q {
        assert(s[q].before(from));
        assert(!s[q].before(to));
    }
    if from == to {
        if p < q {
            assert(s[p].before(to));
            assert(!s[p].before(from));
        }
    } else {
        let last = (to - 1) as u64;
        if set.contains(last) {
            assert(s.contains(last));
            let i = choose|i: int| 0 <= i < s.len() && s[i] == last;
            assert(s[i].before(to));
            assert(i < q);
            if i + 1 < q {
                assert(s[i].before(s[i + 1]));
                assert(s[i + 1].before(to));
            }
            assert(splits_at(s, last, q - 1)) by {
                assert forall|j: int| 0 <= j < q - 1 implies (#[trigger] s[j]).before(last) by {
                    assert(s[j].before(s[i]));
                }
                assert forall|j: int| q - 1 <= j < s.len() implies !(#[trigger] s[j]).before(
                    last,
                ) by {
                    if j > i {
                        assert(s[i].before(s[j]));
                    }
                }
            }
            lemma_count_present(set, from, last, p, q - 1);
        } else {
            assert(splits_at(s, last, q)) by {
                assert forall|j: int| 0 <= j < q implies (#[trigger] s[j]).before(last) by {
                    assert(s[j].before(to));
                    if s[j] == last {
                        assert(s.contains(last));
                    }
                }
                assert forall|j: int| q <= j < s.len() implies !(#[trigger] s[j]).before(last) by {
                    assert(!s[j].before(to));
                }
            }
            lemma_count_present(set, from, last, p, q);
        }
    }
}

/// The indexes of the shreds of one kind that a slot has received.
pub struct ShredIndex {
    pub index: KeySet<u64>,
}

impl View for ShredIndex {
    type V = Set<u64>;

    open spec fn view(&self) -> Set<u64> {
        self.index@
    }
}

impl ShredIndex {
    pub fn new() -> (result: Self)
        ensures
            result@ == Set::<u64>::empty(),
    {
        ShredIndex { index: KeySet::new() }
    }

    /// How many shreds there are.
    pub fn num_shreds(&self) -> (result: usize)
        ensures
            result == ordered(self@).len(),
            lists(ordered(self@), self@),
    {
        self.index.len()
    }

    /// How many indexes from `from` up to `to`, excluded, are present.
    pub fn present_in_bounds(&self, from: u64, to: u64) -> (result: usize)
        ensures
            result == count_present(self@, from as int, to as int),
    {
        if from >= to {
            return 0;
        }
        let p: usize = self.index.lower_bound(&from);
        let q: usize = self.index.lower_bound(&to);
        proof {
            lemma_count_present(self@, from, to, p as int, q as int);
        }
        q - p
    }

    /// Whether `i` is present.
    pub fn is_present(&self, i: u64) -> (result: bool)
        ensures
            result == self@.contains(i),
    {
        self.index.contains(&i)
    }

    /// Notes whether `i` is present.
    pub fn set_present(&mut self, i: u64, presence: bool)
        ensures
            final(self)@ == if presence {
                old(self)@.insert(i)
            } else {
                old(self)@.remove(i)
            },
    {
        if presence {
            self.index.insert(i);
        } else {
            self.index.remove(&i);
        }
    }
}

impl Duplicate for ShredIndex {
    fn duplicate(&self) -> (result: Self) {
        ShredIndex { index: self.index.duplicate() }
    }
}

/// The indexes of all shreds that a slot has received.
pub struct Index {
    pub slot: Slot,
    pub data: ShredIndex,
    pub coding: ShredIndex,
}

/// The model of an `Index`.
#[verifier::ext_equal]
pub struct IndexView {
    pub slot: Slot,
    pub data: Set<u64>,
    pub coding: Set<u64>,
}

impl View for Index {
    type V = IndexView;

    open spec fn view(&self) -> IndexView {
        IndexView { slot: self.slot, data: self.data@, coding: self.coding@ }
    }
}

impl IndexView {
    /// The index of a slot that has no shreds.
    pub open spec fn fresh(slot: Slot) -> Self {
        IndexView { slot, data: Set::empty(), coding: Set::empty() }
    }
}

impl Index {
    pub fn new(slot: Slot) -> (result: Self)
        ensures
            result@ == IndexView::fresh(slot),
    {
        Index { slot, data: ShredIndex::new(), coding: ShredIndex::new() }
    }
}

impl Duplicate for Index {
    fn duplicate(&self) -> (result: Self) {
        Index { slot: self.slot, data: self.data.duplicate(), coding: self.coding.duplicate() }
    }
}

/// How many data and coding shreds an erasure set has.
#[derive(Clone, Copy, PartialEq, Eq, Structural, Debug)]
pub struct ErasureConfig {
    pub num_data: u64,
    pub num_coding: u64,
}

/// What is known of an erasure set.
#[derive(Clone, Copy, PartialEq, Eq, Structural, Debug)]
pub struct ErasureMeta {
    /// The index of the first data shred of the set.
    pub set_index: u64,
    /// The index of the first coding shred of the set.
    pub first_coding_index: u64,
    pub config: ErasureConfig,
}

/// Whether an erasure set is complete, or can be completed.
#[derive(Clone, Copy, PartialEq, Eq, Structural, Debug)]
pub enum ErasureMetaStatus {
    CanRecover,
    DataFull,
    StillNeed(u64),
}

impl View for ErasureMeta {
    type V = ErasureMeta;

    open spec fn view(&self) -> ErasureMeta {
        *self
    }
}

impl Duplicate for ErasureMeta {
    fn duplicate(&self) -> (result: Self) {
        *self
    }
}

impl ErasureMeta {
    /// Every shred index of the set fits in 32 bits.
    pub open spec fn in_bounds(self) -> bool {
        &&& self.set_index + self.config.num_data <= 0x1_0000_0000
        &&& self.set_index + self.config.num_coding <= 0x1_0000_0000
        &&& self.first_coding_index + self.config.num_coding <= 0x1_0000_0000
    }

    /// The index of the first coding shred. A set stored without one starts at its set index.
    pub open spec fn coding_start(self) -> u64 {
        if self.first_coding_index == 0 {
            self.set_index
        } else {
            self.first_coding_index
        }
    }

    pub fn coding_shreds_start(&self) -> (result: u64)
        ensures
            result == self.coding_start(),
    {
        if self.first_coding_index == 0 {
            self.set_index
        } else {
            self.first_coding_index
        }
    }

    /// The state of the set, given the shreds of its slot.
    pub open spec fn status_of(self, index: IndexView) -> ErasureMetaStatus {
        let data = count_present(
            index.data,
            self.set_index as int,
            self.set_index + self.config.num_data,
        );
        let coding = count_present(
            index.coding,
            self.coding_start() as int,
            self.coding_start() + self.config.num_coding,
        );
        if data >= self.config.num_data {
            ErasureMetaStatus::DataFull
        } else if data + coding >= self.config.num_data {
            ErasureMetaStatus::CanRecover
        } else {
            ErasureMetaStatus::StillNeed((self.config.num_data - data - coding) as u64)
        }
    }

    /// The state of the set, given the shreds of its slot.
    pub fn status(&self, index: &Index) -> (result: ErasureMetaStatus)
        requires
            self.in_bounds(),
        ensures
            result == self.status_of(index@),
    {
        let data: u64 = index.data.present_in_bounds(
            self.set_index,
            self.set_index + self.config.num_data,
        ) as u64;
        let start: u64 = self.coding_shreds_start();
        let coding: u64 = index.coding.present_in_bounds(
            start,
            start + self.config.num_coding,
        ) as u64;
        if data >= self.config.num_data {
            ErasureMetaStatus::DataFull
        } else if coding >= self.config.num_data - data {
            ErasureMetaStatus::CanRecover
        } else {
            ErasureMetaStatus::StillNeed(self.config.num_data - data - coding)
        }
    }
}

/// Two conflicting shreds of one slot.
#[derive(Clone, Debug, PartialEq, Eq)]
pub struct DuplicateSlotProof {
    pub shred1: Vec<u8>,
    pub shred2: Vec<u8>,
}

/// The model of a `DuplicateSlotProof`.
#[verifier::ext_equal]
pub struct DuplicateSlotProofView {
    pub shred1: Seq<u8>,
    pub shred2: Seq<u8>,
}

impl View for DuplicateSlotProof {
    type V = DuplicateSlotProofView;

    open spec fn view(&self) -> DuplicateSlotProofView {
        DuplicateSlotProofView { shred1: self.shred1@, shred2: self.shred2@ }
    }
}

impl Duplicate for DuplicateSlotProof {
    fn duplicate(&self) -> (result: Self) {
        DuplicateSlotProof { shred1: self.shred1.duplicate(), shred2: self.shred2.duplicate() }
    }
}

/// The state of one of the two transaction status indexes.
#[derive(Clone, Copy, PartialEq, Eq, Structural, Debug)]
pub struct TransactionStatusIndexMeta {
    pub max_slot: Slot,
    pub frozen: bool,
}

impl View for TransactionStatusIndexMeta {
    type V = TransactionStatusIndexMeta;

    open spec fn view(&self) -> TransactionStatusIndexMeta {
        *self
    }
}

/// How a transaction uses an address.
#[derive(Clone, Copy, PartialEq, Eq, Structural, Debug)]
pub struct AddressSignatureMeta {
    pub writeable: bool,
}

impl View for AddressSignatureMeta {
    type V = AddressSignatureMeta;

    open spec fn view(&self) -> AddressSignatureMeta {
        *self
    }
}

/// A sample of the ledger's throughput.
#[derive(Clone, Copy, PartialEq, Eq, Structural, Debug)]
pub struct PerfSample {
    pub num_transactions: u64,
    pub num_slots: u64,
    pub sample_period_secs: u16,
}

impl View for PerfSample {
    type V = PerfSample;

    open spec fn view(&self) -> PerfSample {
        *self
    }
}

/// The hash of a frozen bank.
#[derive(Clone, Copy, PartialEq, Eq, Structural, Debug)]
pub struct FrozenHashStatus {
    pub frozen_hash: Blockhash,
    pub is_duplicate_confirmed: bool,
}

impl View for FrozenHashStatus {
    type V = FrozenHashStatus;

    open spec fn view(&self) -> FrozenHashStatus {
        *self
    }
}

/// The program cost that was measured last.
#[derive(Clone, Copy, PartialEq, Eq, Structural, Debug)]
pub struct ProgramCost {
    pub cost: u64,
}

impl View for ProgramCost {
    type V = ProgramCost;

    open spec fn view(&self) -> ProgramCost {
        *self
    }
}

} // verus!
