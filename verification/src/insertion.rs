//! Insertion of shreds: the checks that a shred has to pass, and what it changes.

use vstd::prelude::*;
use crate::blockstore::{Blockstore, BlockstoreView, SlotStats};
use crate::chaining::{MetaEntryView, SlotMetaWorkingSetEntry};
use crate::column::{without_range, Column, Duplicate, SlotIndex};
use crate::ledger::{op_views, LedgerView, WriteOp, WriteOpView};
use crate::meta::{ErasureMeta, Index, IndexView, ShredIndex, SlotMeta, SlotMetaView};
use crate::metrics::{bump, more, BlockstoreInsertionMetrics};
use crate::records::BlockstoreError;
use crate::shred::{shred_views, zeros, Shred, ShredView, SHRED_PAYLOAD_SIZE};
use crate::slot_update::{
    completed_runs, elapsed_at_tick, find_first_missing, first_missing, is_orphan, orphaned,
    update_slot_meta, updated_meta, valid_shred_slots, verify_shred_slots, DEFAULT_TICKS_PER_SECOND,
};
use crate::types::Slot;

verus! {

/// How a data shred came.
#[derive(Clone, Copy, PartialEq, Eq, Structural, Debug)]
pub enum ShredSource {
    Turbine,
    Repaired,
    Recovered,
}

/// A run of entries of which all shreds have been received, as an inclusive range of indexes.
#[derive(Clone, Copy, PartialEq, Eq, Structural, Debug)]
pub struct CompletedDataSetInfo {
    pub slot: Slot,
    pub start_index: u32,
    pub end_index: u32,
}

/// Why a data shred was not inserted.
#[derive(Debug)]
pub enum InsertDataShredError {
    Exists,
    InvalidShred,
    BlockstoreError(BlockstoreError),
}

impl InsertDataShredError {
    /// The error in words.
    pub fn message(&self) -> (result: String)
        ensures
            result@ == "insert data shred error"@,
    {
        "insert data shred error".to_string()
    }
}

/// A slot has become full.
#[derive(Clone, Copy, PartialEq, Eq, Structural, Debug)]
pub struct SlotFullReport {
    pub slot: Slot,
    pub first_shred_timestamp: u64,
    /// The last index of the slot, or -1 where it is too large to report.
    pub last_index: i64,
    pub num_repaired: usize,
    pub num_recovered: usize,
}

/// The index of a slot while a batch of shreds is inserted.
pub struct IndexMetaWorkingSetEntry {
    pub index: Index,
    /// Whether a shred of the slot was inserted in this batch.
    pub did_insert_occur: bool,
}

/// The model of an `IndexMetaWorkingSetEntry`.
#[verifier::ext_equal]
pub struct IndexEntryView {
    pub index: IndexView,
    pub did_insert_occur: bool,
}

impl View for IndexMetaWorkingSetEntry {
    type V = IndexEntryView;

    open spec fn view(&self) -> IndexEntryView {
        IndexEntryView { index: self.index@, did_insert_occur: self.did_insert_occur }
    }
}

/// The state of the insertion of a batch of shreds. Nothing of it is in the ledger yet.
pub struct InsertionState {
    pub slot_metas: Column<u64, SlotMetaWorkingSetEntry>,
    pub indexes: Column<u64, IndexMetaWorkingSetEntry>,
    pub erasure_metas: Column<SlotIndex, ErasureMeta>,
    /// The data shreds inserted in this batch.
    pub data_shreds: Column<SlotIndex, Shred>,
    /// The coding shreds inserted in this batch.
    pub code_shreds: Column<SlotIndex, Shred>,
    pub write_batch: Vec<WriteOp>,
    /// The shreds that were there already, for the caller to look into.
    pub duplicates: Vec<Shred>,
    pub completed_data_sets: Vec<CompletedDataSetInfo>,
    /// The positions, in the batch, of the data shreds that were inserted.
    pub inserted_indices: Vec<usize>,
    pub full_slots: Vec<SlotFullReport>,
    /// The recovered shreds that were inserted, to be sent on.
    pub retransmit: Vec<Shred>,
    pub metrics: BlockstoreInsertionMetrics,
}

/// The model of an `InsertionState`.
#[verifier::ext_equal]
pub struct InsertionView {
    pub slot_metas: Map<u64, MetaEntryView>,
    pub indexes: Map<u64, IndexEntryView>,
    pub erasure_metas: Map<SlotIndex, ErasureMeta>,
    pub data_shreds: Map<SlotIndex, ShredView>,
    pub code_shreds: Map<SlotIndex, ShredView>,
    pub write_batch: Seq<WriteOpView>,
    pub duplicates: Seq<ShredView>,
    pub completed_data_sets: Seq<CompletedDataSetInfo>,
    pub inserted_indices: Seq<usize>,
    pub full_slots: Seq<SlotFullReport>,
    pub retransmit: Seq<ShredView>,
    pub metrics: BlockstoreInsertionMetrics,
}

impl View for InsertionState {
    type V = InsertionView;

    open spec fn view(&self) -> InsertionView {
        InsertionView {
            slot_metas: self.slot_metas@,
            indexes: self.indexes@,
            erasure_metas: self.erasure_metas@,
            data_shreds: self.data_shreds@,
            code_shreds: self.code_shreds@,
            write_batch: op_views(self.write_batch@),
            duplicates: shred_views(self.duplicates@),
            completed_data_sets: self.completed_data_sets@,
            inserted_indices: self.inserted_indices@,
            full_slots: self.full_slots@,
            retransmit: shred_views(self.retransmit@),
            metrics: self.metrics,
        }
    }
}

impl InsertionView {
    /// The state before the first shred of a batch.
    pub open spec fn start(metrics: BlockstoreInsertionMetrics) -> Self {
        InsertionView {
            slot_metas: Map::empty(),
            indexes: Map::empty(),
            erasure_metas: Map::empty(),
            data_shreds: Map::empty(),
            code_shreds: Map::empty(),
            write_batch: Seq::empty(),
            duplicates: Seq::empty(),
            completed_data_sets: Seq::empty(),
            inserted_indices: Seq::empty(),
            full_slots: Seq::empty(),
            retransmit: Seq::empty(),
            metrics,
        }
    }
}

impl InsertionState {
    /// The state before the first shred of a batch.
    pub fn new(metrics: BlockstoreInsertionMetrics) -> (result: Self)
        ensures
            result@ == InsertionView::start(metrics),
    {
        let result = InsertionState {
            slot_metas: Column::new(),
            indexes: Column::new(),
            erasure_metas: Column::new(),
            data_shreds: Column::new(),
            code_shreds: Column::new(),
            write_batch: Vec::new(),
            duplicates: Vec::new(),
            completed_data_sets: Vec::new(),
            inserted_indices: Vec::new(),
            full_slots: Vec::new(),
            retransmit: Vec::new(),
            metrics,
        };
        assert(result@ =~= InsertionView::start(metrics));
        result
    }
}

/// The key of the shred in its column.
pub open spec fn shred_key(shred: ShredView) -> SlotIndex {
    SlotIndex { slot: shred.slot(), index: shred.index() as u64 }
}

/// The key of the shred's erasure set.
pub open spec fn erasure_key(shred: ShredView) -> SlotIndex {
    SlotIndex { slot: shred.slot(), index: shred.fec_set_index() as u64 }
}

/// The index of `slot` as this batch sees it.
pub open spec fn index_entry(
    ledger: LedgerView,
    indexes: Map<u64, IndexEntryView>,
    slot: Slot,
) -> IndexEntryView {
    if indexes.contains_key(slot) {
        indexes[slot]
    } else {
        IndexEntryView {
            index: if ledger.index.contains_key(slot) {
                ledger.index[slot]
            } else {
                IndexView::fresh(slot)
            },
            did_insert_occur: false,
        }
    }
}

/// The metadata of `slot` as this batch sees it. An orphan gets its parent.
pub open spec fn meta_entry(
    ledger: LedgerView,
    slot_metas: Map<u64, MetaEntryView>,
    slot: Slot,
    parent: Slot,
) -> MetaEntryView {
    if slot_metas.contains_key(slot) {
        slot_metas[slot]
    } else if ledger.meta.contains_key(slot) {
        let meta = ledger.meta[slot];
        MetaEntryView {
            new_slot_meta: if orphaned(meta) {
                SlotMetaView { parent_slot: Some(parent), ..meta }
            } else {
                meta
            },
            old_slot_meta: Some(meta),
            did_insert_occur: false,
        }
    } else {
        MetaEntryView {
            new_slot_meta: SlotMetaView::fresh(slot, Some(parent)),
            old_slot_meta: None,
            did_insert_occur: false,
        }
    }
}

/// The data shred is there already.
pub open spec fn data_shred_present(
    shred: ShredView,
    meta: SlotMetaView,
    received: Set<u64>,
) -> bool {
    shred.index() < meta.consumed || received.contains(shred.index() as u64)
}

/// `bytes` filled with zeros up to the length of a shred.
pub open spec fn filled(bytes: Seq<u8>) -> Seq<u8> {
    if bytes.len() < SHRED_PAYLOAD_SIZE {
        bytes + zeros(SHRED_PAYLOAD_SIZE - bytes.len())
    } else {
        bytes
    }
}

/// There is a data shred at `index` of `slot`, in the ledger or in this batch.
pub open spec fn has_data(
    ledger: LedgerView,
    data_shreds: Map<SlotIndex, ShredView>,
    slot: Slot,
    index: u64,
) -> bool {
    data_shreds.contains_key(SlotIndex { slot, index }) || ledger.data_shreds.contains_key(
        SlotIndex { slot, index },
    )
}

/// The payload of a data shred, from this batch or from the ledger.
pub open spec fn payload_at(
    ledger: LedgerView,
    data_shreds: Map<SlotIndex, ShredView>,
    slot: Slot,
    index: u64,
) -> Seq<u8> {
    let key = SlotIndex { slot, index };
    if data_shreds.contains_key(key) {
        data_shreds[key].payload
    } else {
        filled(ledger.data_shreds[key])
    }
}

/// The metadata's last index and height are those of data shreds that there are, and every
/// shred index has a successor.
pub open spec fn meta_backed(
    ledger: LedgerView,
    data_shreds: Map<SlotIndex, ShredView>,
    slot: Slot,
    meta: SlotMetaView,
) -> bool {
    &&& meta.last_index is Some ==> meta.last_index->0 <= u32::MAX && has_data(
        ledger,
        data_shreds,
        slot,
        meta.last_index->0,
    )
    &&& meta.received > 0 ==> meta.received - 1 <= u32::MAX && has_data(
        ledger,
        data_shreds,
        slot,
        (meta.received - 1) as u64,
    )
    &&& !meta.completed_data_indexes.contains(u32::MAX)
}

/// The shred that a data shred is held against when it is checked is there: the last of its slot
/// for one at or past it, and the highest for one that ends the slot before it.
pub open spec fn shred_checkable(
    ledger: LedgerView,
    data_shreds: Map<SlotIndex, ShredView>,
    shred: ShredView,
    meta: SlotMetaView,
) -> bool {
    let slot = shred.slot();
    shred.data_header.size > 0 && shred.payload.len() <= SHRED_PAYLOAD_SIZE ==> if meta.last_index
        is Some && shred.index() >= meta.last_index->0 {
        has_data(ledger, data_shreds, slot, meta.last_index->0)
    } else {
        shred.last_in_slot() && shred.index() < meta.received ==> has_data(
            ledger,
            data_shreds,
            slot,
            (meta.received - 1) as u64,
        )
    }
}

/// Whether an untrusted data shred may be inserted, and the store afterwards: a shred past the
/// end of its slot, or one that ends the slot before the highest shred, goes into a proof that
/// the slot has two versions.
pub open spec fn data_shred_check(
    store: BlockstoreView,
    data_shreds: Map<SlotIndex, ShredView>,
    shred: ShredView,
    meta: SlotMetaView,
) -> (BlockstoreView, bool) {
    let slot = shred.slot();
    if shred.data_header.size == 0 || shred.payload.len() > SHRED_PAYLOAD_SIZE {
        (store, false)
    } else if meta.last_index is Some && shred.index() >= meta.last_index->0 {
        (
            store.with_duplicate(
                slot,
                payload_at(store.ledger, data_shreds, slot, meta.last_index->0),
                shred.payload,
            ),
            false,
        )
    } else if shred.last_in_slot() && shred.index() < meta.received {
        (
            store.with_duplicate(
                slot,
                payload_at(store.ledger, data_shreds, slot, (meta.received - 1) as u64),
                shred.payload,
            ),
            false,
        )
    } else {
        (
            store,
            meta.parent_slot is Some && valid_shred_slots(
                slot,
                meta.parent_slot->0,
                store.last_root,
            ),
        )
    }
}

/// No repaired and no recovered shreds.
pub open spec fn no_stats() -> SlotStats {
    SlotStats { num_repaired: 0, num_recovered: 0 }
}

/// The statistics of `slot`, or none.
pub open spec fn stats_of(stats: Map<u64, SlotStats>, slot: Slot) -> SlotStats {
    if stats.contains_key(slot) {
        stats[slot]
    } else {
        no_stats()
    }
}

impl BlockstoreView {
    /// The store after a repaired or recovered shred of `slot` was counted.
    pub open spec fn counted(self, slot: Slot, source: ShredSource) -> Self {
        let old_stats = stats_of(self.slots_stats, slot);
        let new_stats = match source {
            ShredSource::Turbine => old_stats,
            ShredSource::Repaired => SlotStats {
                num_repaired: more(old_stats.num_repaired, 1),
                ..old_stats
            },
            ShredSource::Recovered => SlotStats {
                num_recovered: more(old_stats.num_recovered, 1),
                ..old_stats
            },
        };
        if source == ShredSource::Turbine {
            self
        } else {
            BlockstoreView { slots_stats: self.slots_stats.insert(slot, new_stats), ..self }
        }
    }

    /// The store after the statistics of a full slot were taken out. If it had some, and more
    /// than 30 seconds passed since it was last done, those of the slots below the last root
    /// are dropped too.
    pub open spec fn stats_taken(self, slot: Slot, now: u64) -> Self {
        if !self.slots_stats.contains_key(slot) {
            self
        } else {
            let rest = self.slots_stats.remove(slot);
            if (now - self.last_stats_cleanup) / 1000 > 30 {
                BlockstoreView {
                    slots_stats: without_range(rest, 0, self.last_root),
                    last_stats_cleanup: now,
                    ..self
                }
            } else {
                BlockstoreView { slots_stats: rest, ..self }
            }
        }
    }
}

/// The report on a full slot.
pub open spec fn full_report(meta: SlotMetaView, stats: SlotStats) -> SlotFullReport {
    SlotFullReport {
        slot: meta.slot,
        first_shred_timestamp: meta.first_shred_timestamp,
        last_index: if meta.last_index is Some && meta.last_index->0 <= i64::MAX {
            meta.last_index->0 as i64
        } else {
            -1i64
        },
        num_repaired: stats.num_repaired,
        num_recovered: stats.num_recovered,
    }
}

/// How many consecutive shreds there are once the one at `index` has come.
pub open spec fn new_consumed(meta: SlotMetaView, received: Set<u64>, index: u32) -> u64 {
    if meta.consumed == index {
        first_missing(received, (index + 1) as u64)
    } else {
        meta.consumed
    }
}

/// The metadata after a data shred was inserted.
pub open spec fn meta_after(
    meta: SlotMetaView,
    received: Set<u64>,
    shred: ShredView,
    now: u64,
) -> SlotMetaView {
    updated_meta(
        meta,
        shred.last_in_slot(),
        shred.data_complete(),
        shred.index(),
        new_consumed(meta, received, shred.index()),
        shred.reference_tick(),
        now,
    )
}

/// The runs of entries that a data shred completes.
pub open spec fn data_sets_completed_by(
    meta: SlotMetaView,
    received: Set<u64>,
    shred: ShredView,
) -> Seq<CompletedDataSetInfo> {
    let runs = completed_runs(
        shred.last_in_slot() || shred.data_complete(),
        shred.index(),
        received.insert(shred.index() as u64),
        meta.completed_data_indexes,
    );
    Seq::new(
        runs.len(),
        |i: int|
            CompletedDataSetInfo {
                slot: shred.slot(),
                start_index: runs[i].0,
                end_index: runs[i].1,
            },
    )
}

/// The store after a data shred was inserted, which left its slot with `meta`.
pub open spec fn store_after_data(
    store: BlockstoreView,
    meta: SlotMetaView,
    source: ShredSource,
    now: u64,
) -> BlockstoreView {
    let counted = store.counted(meta.slot, source);
    if meta.is_full() {
        counted.stats_taken(meta.slot, now)
    } else {
        counted
    }
}

/// The reports after a data shred was inserted, which left its slot with `meta`.
pub open spec fn reports_after_data(
    reports: Seq<SlotFullReport>,
    store: BlockstoreView,
    meta: SlotMetaView,
    source: ShredSource,
) -> Seq<SlotFullReport> {
    if meta.is_full() {
        reports.push(
            full_report(meta, stats_of(store.counted(meta.slot, source).slots_stats, meta.slot)),
        )
    } else {
        reports
    }
}

/// What came of a data shred.
pub struct DataStep {
    pub store: BlockstoreView,
    pub state: InsertionView,
    pub result: core::result::Result<Seq<CompletedDataSetInfo>, InsertDataShredError>,
}

/// A data shred is handed in: what it changes, and what is returned for it.
pub open spec fn data_step(
    store: BlockstoreView,
    state: InsertionView,
    shred: ShredView,
    is_trusted: bool,
    source: ShredSource,
    now: u64,
) -> DataStep {
    let slot = shred.slot();
    let ie = index_entry(store.ledger, state.indexes, slot);
    let state1 = InsertionView { indexes: state.indexes.insert(slot, ie), ..state };
    if shred.parent() is None {
        DataStep { store, state: state1, result: Err(InsertDataShredError::InvalidShred) }
    } else {
        let me = meta_entry(store.ledger, state.slot_metas, slot, shred.parent()->0);
        let meta = me.new_slot_meta;
        let state2 = InsertionView { slot_metas: state.slot_metas.insert(slot, me), ..state1 };
        if !is_trusted && data_shred_present(shred, meta, ie.index.data) {
            DataStep {
                store,
                state: InsertionView { duplicates: state.duplicates.push(shred), ..state2 },
                result: Err(InsertDataShredError::Exists),
            }
        } else {
            let state3 = if !is_trusted && shred.last_in_slot() && shred.index() < meta.received
                && !meta.is_full() {
                InsertionView {
                    write_batch: state.write_batch.push(WriteOpView::PutDeadSlot(slot, true)),
                    ..state2
                }
            } else {
                state2
            };
            let (store1, accepted) = if is_trusted {
                (store, true)
            } else {
                data_shred_check(store, state.data_shreds, shred, meta)
            };
            if !accepted {
                DataStep {
                    store: store1,
                    state: state3,
                    result: Err(InsertDataShredError::InvalidShred),
                }
            } else {
                data_insertion(store1, state3, shred, source, now)
            }
        }
    }
}

/// An accepted data shred is inserted.
pub open spec fn data_insertion(
    store: BlockstoreView,
    state: InsertionView,
    shred: ShredView,
    source: ShredSource,
    now: u64,
) -> DataStep {
    let slot = shred.slot();
    let ie = state.indexes[slot];
    let me = state.slot_metas[slot];
    let meta = meta_after(me.new_slot_meta, ie.index.data, shred, now);
    let ekey = erasure_key(shred);
    DataStep {
        store: store_after_data(store, meta, source, now),
        state: InsertionView {
            slot_metas: state.slot_metas.insert(
                slot,
                MetaEntryView { new_slot_meta: meta, did_insert_occur: true, ..me },
            ),
            indexes: state.indexes.insert(
                slot,
                IndexEntryView {
                    index: IndexView {
                        data: ie.index.data.insert(shred.index() as u64),
                        ..ie.index
                    },
                    did_insert_occur: true,
                },
            ),
            erasure_metas: if !state.erasure_metas.contains_key(ekey)
                && store.ledger.erasure_meta.contains_key(ekey) {
                state.erasure_metas.insert(ekey, store.ledger.erasure_meta[ekey])
            } else {
                state.erasure_metas
            },
            data_shreds: state.data_shreds.insert(shred_key(shred), shred),
            write_batch: state.write_batch.push(
                WriteOpView::PutDataShred(shred_key(shred), shred.stored()),
            ),
            full_slots: reports_after_data(state.full_slots, store, meta, source),
            ..state
        },
        result: Ok(data_sets_completed_by(me.new_slot_meta, ie.index.data, shred)),
    }
}

/// The shred can be stored: a data shred lies within its payload and its index has a
/// successor, and it was made after the epoch; a trusted coding shred has consistent headers.
pub open spec fn insertable(shred: ShredView, is_trusted: bool, now: u64) -> bool {
    if shred.is_data() {
        &&& shred.data_header.size <= shred.payload.len()
        &&& shred.index() < u32::MAX
        &&& now >= elapsed_at_tick(shred.reference_tick())
    } else {
        is_trusted ==> shred.sanitize()
    }
}

/// A data shred that ends up in its slot, which was left with `meta` so far, can be stored: it
/// lies within its payload, its index has a successor, and, where it is the first of its slot,
/// it was made after the epoch.
pub open spec fn data_fits(meta: SlotMetaView, shred: ShredView, now: u64) -> bool {
    &&& shred.data_header.size <= shred.payload.len()
    &&& shred.index() < u32::MAX
    &&& meta.received == 0 ==> now >= elapsed_at_tick(shred.reference_tick())
}

/// A data shred may be handed in: it is refused, or can be stored.
pub open spec fn data_allowed(
    store: BlockstoreView,
    state: InsertionView,
    shred: ShredView,
    is_trusted: bool,
    source: ShredSource,
    now: u64,
) -> bool {
    data_step(store, state, shred, is_trusted, source, now).result is Ok ==> data_fits(
        meta_entry(
            store.ledger,
            state.slot_metas,
            shred.slot(),
            shred.parent()->0,
        ).new_slot_meta,
        shred,
        now,
    )
}

pub proof fn lemma_reinsert<K, W>(m: Map<K, W>, k: K, v: W)
    ensures
        m.remove(k).insert(k, v) == m.insert(k, v),
{
    assert(m.remove(k).insert(k, v) =~= m.insert(k, v));
}

/// `bytes` filled with zeros up to the length of a shred.
pub fn fill_payload(bytes: &Vec<u8>) -> (result: Vec<u8>)
    ensures
        result@ == filled(bytes@),
{
    let mut result = bytes.duplicate();
    let n: usize = bytes.len();
    while result.len() < SHRED_PAYLOAD_SIZE
        invariant
            n == bytes@.len(),
            n <= result@.len(),
            result@.len() <= n || result@.len() <= SHRED_PAYLOAD_SIZE,
            result@ == bytes@ + zeros(result@.len() - n),
        decreases SHRED_PAYLOAD_SIZE - result@.len(),
    {
        let ghost before = result@;
        result.push(0);
        assert(result@ =~= bytes@ + zeros(result@.len() - n));
    }
    assert(result@ =~= filled(bytes@));
    result
}

impl Blockstore {
    /// Takes the index of a slot out of the working set, or reads it from the ledger.
    pub fn get_index_meta_entry(
        &self,
        slot: Slot,
        index_working_set: &mut Column<u64, IndexMetaWorkingSetEntry>,
    ) -> (result: IndexMetaWorkingSetEntry)
        ensures
            final(index_working_set)@ == old(index_working_set)@.remove(slot),
            result@ == index_entry(self@.ledger, old(index_working_set)@, slot),
    {
        match index_working_set.remove(&slot) {
            Some(entry) => entry,
            None => {
                let index = match self.ledger.index.get(&slot) {
                    Some(index) => index.duplicate(),
                    None => Index::new(slot),
                };
                IndexMetaWorkingSetEntry { index, did_insert_occur: false }
            },
        }
    }

    /// Takes the metadata of a slot out of the working set, or reads it from the ledger. An
    /// orphan gets its parent.
    pub fn get_slot_meta_entry(
        &self,
        slot_meta_working_set: &mut Column<u64, SlotMetaWorkingSetEntry>,
        slot: Slot,
        parent_slot: Slot,
    ) -> (result: SlotMetaWorkingSetEntry)
        ensures
            final(slot_meta_working_set)@ == old(slot_meta_working_set)@.remove(slot),
            result@ == meta_entry(self@.ledger, old(slot_meta_working_set)@, slot, parent_slot),
    {
        match slot_meta_working_set.remove(&slot) {
            Some(entry) => entry,
            None => match self.ledger.meta.get(&slot) {
                Some(backup) => {
                    let mut meta = backup.duplicate();
                    if is_orphan(&meta) {
                        meta.parent_slot = Some(parent_slot);
                    }
                    SlotMetaWorkingSetEntry::new(meta, Some(backup.duplicate()))
                },
                None => SlotMetaWorkingSetEntry::new(
                    SlotMeta::new(slot, Some(parent_slot)),
                    None,
                ),
            },
        }
    }

    /// Whether a data shred is there already.
    pub fn is_data_shred_present(
        shred: &Shred,
        slot_meta: &SlotMeta,
        data_index: &ShredIndex,
    ) -> (result: bool)
        ensures
            result == data_shred_present(shred@, slot_meta@, data_index@),
    {
        let shred_index: u64 = shred.index() as u64;
        shred_index < slot_meta.consumed || data_index.is_present(shred_index)
    }

    /// The data shred at `index`, filled with zeros up to the length of a shred.
    pub fn get_data_shred(&self, slot: Slot, index: u64) -> (result: Option<Vec<u8>>)
        ensures
            result is Some <==> self@.ledger.data_shreds.contains_key(SlotIndex { slot, index }),
            result is Some ==> result->0@ == filled(
                self@.ledger.data_shreds[SlotIndex { slot, index }],
            ),
    {
        match self.ledger.data_shreds.get(&SlotIndex { slot, index }) {
            Some(bytes) => Some(fill_payload(bytes)),
            None => None,
        }
    }

    /// The payload of a data shred, from this batch or from the ledger.
    fn get_data_shred_from_just_inserted_or_db(
        &self,
        just_inserted_shreds: &Column<SlotIndex, Shred>,
        slot: Slot,
        index: u64,
    ) -> (result: Vec<u8>)
        requires
            has_data(self@.ledger, just_inserted_shreds@, slot, index),
        ensures
            result@ == payload_at(self@.ledger, just_inserted_shreds@, slot, index),
    {
        match just_inserted_shreds.get(&SlotIndex { slot, index }) {
            Some(shred) => shred.payload.duplicate(),
            None => match self.get_data_shred(slot, index) {
                Some(bytes) => bytes,
                None => {
                    assert(false);
                    Vec::new()
                },
            },
        }
    }

    /// Whether an untrusted data shred may be inserted. One that shows that its slot has two
    /// versions may not, and is kept as a proof of that.
    pub fn should_insert_data_shred(
        &mut self,
        shred: &Shred,
        slot_meta: &SlotMeta,
        just_inserted_shreds: &Column<SlotIndex, Shred>,
    ) -> (result: bool)
        requires
            shred_checkable(old(self)@.ledger, just_inserted_shreds@, shred@, slot_meta@),
        ensures
            (final(self)@, result) == data_shred_check(
                old(self)@,
                just_inserted_shreds@,
                shred@,
                slot_meta@,
            ),
    {
        let shred_index: u64 = shred.index() as u64;
        let slot: u64 = shred.slot();
        let last_in_slot = shred.last_in_slot();
        if shred.data_header.size == 0 {
            return false;
        }
        if shred.payload.len() > SHRED_PAYLOAD_SIZE {
            return false;
        }
        if let Some(last_index) = slot_meta.last_index {
            if shred_index >= last_index {
                let ending_shred = self.get_data_shred_from_just_inserted_or_db(
                    just_inserted_shreds,
                    slot,
                    last_index,
                );
                self.store_duplicate_if_not_existing(
                    slot,
                    ending_shred,
                    shred.payload.duplicate(),
                );
                return false;
            }
        }
        if last_in_slot && shred_index < slot_meta.received {
            let ending_shred = self.get_data_shred_from_just_inserted_or_db(
                just_inserted_shreds,
                slot,
                slot_meta.received - 1,
            );
            self.store_duplicate_if_not_existing(slot, ending_shred, shred.payload.duplicate());
            return false;
        }
        match slot_meta.parent_slot {
            Some(parent_slot) => verify_shred_slots(slot, parent_slot, self.last_root),
            None => false,
        }
    }

    /// Counts a repaired or recovered shred.
    pub(crate) fn count_shred(&mut self, slot: Slot, source: ShredSource)
        ensures
            final(self)@ == old(self)@.counted(slot, source),
    {
        if source == ShredSource::Turbine {
            return;
        }
        let mut stats = match self.slots_stats.get(&slot) {
            Some(stats) => *stats,
            None => SlotStats { num_repaired: 0, num_recovered: 0 },
        };
        if source == ShredSource::Repaired {
            stats.num_repaired = bump(stats.num_repaired, 1);
        } else {
            stats.num_recovered = bump(stats.num_recovered, 1);
        }
        self.slots_stats.put(slot, stats);
    }

    /// Takes out the statistics of a full slot, and, every 30 seconds, drops those of the
    /// slots below the last root.
    fn take_stats(&mut self, slot: Slot, now: u64) -> (result: SlotStats)
        ensures
            final(self)@ == old(self)@.stats_taken(slot, now),
            result == stats_of(old(self)@.slots_stats, slot),
    {
        match self.slots_stats.remove(&slot) {
            Some(stats) => {
                if now > self.last_stats_cleanup && (now - self.last_stats_cleanup) / 1000 > 30 {
                    let zero: u64 = 0;
                    let root: u64 = self.last_root;
                    self.slots_stats.delete_range(&zero, &root);
                    self.last_stats_cleanup = now;
                }
                stats
            },
            None => {
                assert(self.slots_stats@ =~= old(self).slots_stats@);
                SlotStats { num_repaired: 0, num_recovered: 0 }
            },
        }
    }

    /// Inserts a data shred: notes it in the metadata and the index of its slot, adds the write
    /// of its bytes to the batch, and returns the runs of entries that it completes. `now` is
    /// in milliseconds.
    pub fn insert_data_shred(
        &mut self,
        slot_meta: &mut SlotMeta,
        data_index: &mut ShredIndex,
        shred: &Shred,
        write_batch: &mut Vec<WriteOp>,
        full_slots: &mut Vec<SlotFullReport>,
        shred_source: ShredSource,
        now: u64,
    ) -> (result: Vec<CompletedDataSetInfo>)
        requires
            shred@.is_data(),
            data_fits(old(slot_meta)@, shred@, now),
            !orphaned(old(slot_meta)@),
            !old(slot_meta)@.completed_data_indexes.contains(u32::MAX),
        ensures
            final(slot_meta)@ == meta_after(old(slot_meta)@, old(data_index)@, shred@, now),
            final(data_index)@ == old(data_index)@.insert(shred@.index() as u64),
            op_views(final(write_batch)@) == op_views(old(write_batch)@).push(
                WriteOpView::PutDataShred(shred_key(shred@), shred@.stored()),
            ),
            final(self)@ == store_after_data(
                old(self)@,
                final(slot_meta)@,
                shred_source,
                now,
            ),
            final(full_slots)@ == reports_after_data(
                old(full_slots)@,
                old(self)@,
                final(slot_meta)@,
                shred_source,
            ),
            result@ == data_sets_completed_by(old(slot_meta)@, old(data_index)@, shred@),
    {
        let slot: u64 = shred.slot();
        let index: u64 = shred.index() as u64;
        let last_in_slot = shred.last_in_slot();
        let last_in_data = shred.data_complete();
        let new_consumed: u64 = if slot_meta.consumed == index {
            find_first_missing(data_index, index + 1)
        } else {
            slot_meta.consumed
        };
        let bytes = shred.stored();
        write_batch.push(WriteOp::PutDataShred(SlotIndex { slot, index }, bytes));
        assert(op_views(write_batch@) =~= op_views(old(write_batch)@).push(
            WriteOpView::PutDataShred(shred_key(shred@), shred@.stored()),
        ));
        data_index.set_present(index, true);
        let runs = update_slot_meta(
            last_in_slot,
            last_in_data,
            slot_meta,
            shred.index(),
            new_consumed,
            shred.reference_tick(),
            data_index,
            now,
        );
        let mut completed: Vec<CompletedDataSetInfo> = Vec::new();
        let ghost expected = data_sets_completed_by(old(slot_meta)@, old(data_index)@, shred@);
        let mut i: usize = 0;
        while i < runs.len()
            invariant
                0 <= i <= runs@.len(),
                expected.len() == runs@.len(),
                slot == shred@.slot(),
                forall|j: int|
                    0 <= j < runs@.len() ==> (#[trigger] expected[j]) == (CompletedDataSetInfo {
                        slot,
                        start_index: runs@[j].0,
                        end_index: runs@[j].1,
                    }),
                completed@ == expected.take(i as int),
            decreases runs@.len() - i,
        {
            let run = runs[i];
            completed.push(
                CompletedDataSetInfo { slot, start_index: run.0, end_index: run.1 },
            );
            assert(completed@ =~= expected.take(i + 1));
            i += 1;
        }
        assert(completed@ =~= expected);
        self.count_shred(slot_meta.slot, shred_source);
        if slot_meta.is_full() {
            let stats = self.take_stats(slot_meta.slot, now);
            let last_index: i64 = match slot_meta.last_index {
                Some(ix) => if ix <= 0x7fff_ffff_ffff_ffff {
                    ix as i64
                } else {
                    -1
                },
                None => -1,
            };
            full_slots.push(
                SlotFullReport {
                    slot: slot_meta.slot,
                    first_shred_timestamp: slot_meta.first_shred_timestamp,
                    last_index,
                    num_repaired: stats.num_repaired,
                    num_recovered: stats.num_recovered,
                },
            );
        }
        completed
    }

    /// Whether a data shred may be handed in: it is refused, or can be stored.
    pub fn is_data_allowed(
        &self,
        state: &InsertionState,
        shred: &Shred,
        is_trusted: bool,
        shred_source: ShredSource,
        now: u64,
    ) -> (result: bool)
        ensures
            result == data_allowed(self@, state@, shred@, is_trusted, shred_source, now),
    {
        let slot: u64 = shred.slot();
        let index: u64 = shred.index() as u64;
        let shred_parent: u64 = match shred.parent() {
            Some(parent) => parent,
            None => {
                return true;
            },
        };
        let ghost meta = meta_entry(
            self@.ledger,
            state@.slot_metas,
            slot,
            shred_parent,
        ).new_slot_meta;
        let (parent_slot, consumed, received, last_index): (
            Option<u64>,
            u64,
            u64,
            Option<u64>,
        ) = match state.slot_metas.get(&slot) {
            Some(entry) => (
                entry.new_slot_meta.parent_slot,
                entry.new_slot_meta.consumed,
                entry.new_slot_meta.received,
                entry.new_slot_meta.last_index,
            ),
            None => match self.ledger.meta.get(&slot) {
                Some(found) => (
                    if is_orphan(found) {
                        Some(shred_parent)
                    } else {
                        found.parent_slot
                    },
                    found.consumed,
                    found.received,
                    found.last_index,
                ),
                None => (Some(shred_parent), 0, 0, None),
            },
        };
        assert(meta.parent_slot == parent_slot && meta.consumed == consumed && meta.received
            == received && meta.last_index == last_index);
        let tick: u8 = shred.reference_tick();
        let elapsed: u64 = (tick as u64 * 1000) / DEFAULT_TICKS_PER_SECOND;
        assert(elapsed == elapsed_at_tick(tick));
        if (shred.data_header.size as usize) <= shred.payload.len() && shred.index() < u32::MAX && (
        received != 0 || now >= elapsed) {
            return true;
        }
        if is_trusted {
            return false;
        }
        let is_present = match state.indexes.get(&slot) {
            Some(entry) => entry.index.data.is_present(index),
            None => match self.ledger.index.get(&slot) {
                Some(found) => found.data.is_present(index),
                None => false,
            },
        };
        if index < consumed || is_present {
            return true;
        }
        if shred.data_header.size == 0 || shred.payload.len() > SHRED_PAYLOAD_SIZE {
            return true;
        }
        if let Some(last_index) = last_index {
            if index >= last_index {
                return true;
            }
        }
        if shred.last_in_slot() && index < received {
            return true;
        }
        match parent_slot {
            Some(parent_slot) => !verify_shred_slots(slot, parent_slot, self.last_root),
            None => true,
        }
    }

    /// Checks a data shred and inserts it. A trusted shred is not checked. A shred that is
    /// there already is set aside for the caller.
    pub fn check_insert_data_shred(
        &mut self,
        shred: Shred,
        state: &mut InsertionState,
        is_trusted: bool,
        shred_source: ShredSource,
        now: u64,
    ) -> (result: core::result::Result<Vec<CompletedDataSetInfo>, InsertDataShredError>)
        requires
            data_allowed(old(self)@, old(state)@, shred@, is_trusted, shred_source, now),
            shred@.parent() is Some ==> {
                let me = meta_entry(
                    old(self)@.ledger,
                    old(state)@.slot_metas,
                    shred@.slot(),
                    shred@.parent()->0,
                );
                let ie = index_entry(old(self)@.ledger, old(state)@.indexes, shred@.slot());
                &&& !is_trusted && !data_shred_present(
                    shred@,
                    me.new_slot_meta,
                    ie.index.data,
                ) ==> shred_checkable(
                    old(self)@.ledger,
                    old(state)@.data_shreds,
                    shred@,
                    me.new_slot_meta,
                )
                &&& data_step(
                    old(self)@,
                    old(state)@,
                    shred@,
                    is_trusted,
                    shred_source,
                    now,
                ).result is Ok ==> !orphaned(me.new_slot_meta)
                    && !me.new_slot_meta.completed_data_indexes.contains(u32::MAX)
            },
        ensures
            ({
                let step = data_step(
                    old(self)@,
                    old(state)@,
                    shred@,
                    is_trusted,
                    shred_source,
                    now,
                );
                &&& final(self)@ == step.store
                &&& final(state)@ == step.state
                &&& (match result {
                    Ok(sets) => Ok::<Seq<CompletedDataSetInfo>, InsertDataShredError>(sets@),
                    Err(e) => Err(e),
                }) == step.result
            }),
    {
        let slot: u64 = shred.slot();
        let shred_index: u64 = shred.index() as u64;
        let ghost state0 = state@;
        let mut index_entry = self.get_index_meta_entry(slot, &mut state.indexes);
        let ghost ie = index_entry@;
        proof {
            lemma_reinsert(state0.indexes, slot, ie);
        }
        let parent_slot: u64 = match shred.parent() {
            Some(parent_slot) => parent_slot,
            None => {
                state.indexes.put(slot, index_entry);
                return Err(InsertDataShredError::InvalidShred);
            },
        };
        let mut meta_entry = self.get_slot_meta_entry(&mut state.slot_metas, slot, parent_slot);
        let ghost me = meta_entry@;
        proof {
            lemma_reinsert(state0.slot_metas, slot, me);
        }
        if !is_trusted {
            if Self::is_data_shred_present(
                &shred,
                &meta_entry.new_slot_meta,
                &index_entry.index.data,
            ) {
                state.indexes.put(slot, index_entry);
                state.slot_metas.put(slot, meta_entry);
                state.duplicates.push(shred);
                assert(shred_views(state.duplicates@) =~= state0.duplicates.push(shred@));
                return Err(InsertDataShredError::Exists);
            }
            if shred.last_in_slot() && shred_index < meta_entry.new_slot_meta.received
                && !meta_entry.new_slot_meta.is_full() {
                state.write_batch.push(WriteOp::PutDeadSlot(slot, true));
                assert(op_views(state.write_batch@) =~= state0.write_batch.push(
                    WriteOpView::PutDeadSlot(slot, true),
                ));
            }
            if !self.should_insert_data_shred(
                &shred,
                &meta_entry.new_slot_meta,
                &state.data_shreds,
            ) {
                state.indexes.put(slot, index_entry);
                state.slot_metas.put(slot, meta_entry);
                return Err(InsertDataShredError::InvalidShred);
            }
        }
        let set_index: u64 = shred.fec_set_index() as u64;
        let ghost store1 = self@;
        let newly_completed_data_sets = self.insert_data_shred(
            &mut meta_entry.new_slot_meta,
            &mut index_entry.index.data,
            &shred,
            &mut state.write_batch,
            &mut state.full_slots,
            shred_source,
            now,
        );
        let ghost shred_view = shred@;
        state.data_shreds.put(SlotIndex { slot, index: shred_index }, shred);
        index_entry.did_insert_occur = true;
        meta_entry.did_insert_occur = true;
        proof {
            lemma_reinsert(state0.indexes, slot, index_entry@);
            lemma_reinsert(state0.slot_metas, slot, meta_entry@);
            let ie2 = index_entry@;
            let me2 = meta_entry@;
            assert(state0.indexes.insert(slot, ie).insert(slot, ie2) =~= state0.indexes.insert(
                slot,
                ie2,
            ));
            assert(state0.slot_metas.insert(slot, me).insert(slot, me2)
                =~= state0.slot_metas.insert(slot, me2));
        }
        state.indexes.put(slot, index_entry);
        state.slot_metas.put(slot, meta_entry);
        let set_key = SlotIndex { slot, index: set_index };
        if !state.erasure_metas.contains(&set_key) {
            if let Some(meta) = self.ledger.erasure_meta.get(&set_key) {
                state.erasure_metas.put(set_key, *meta);
            }
        }
        Ok(newly_completed_data_sets)
    }
}

} // verus!
