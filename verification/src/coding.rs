//! Insertion of coding shreds, and the choice of the erasure sets to recover.

use vstd::prelude::*;
use crate::blockstore::{Blockstore, BlockstoreView};
use crate::column::{ordered_keys, Column, Duplicate, SlotIndex};
use crate::insertion::{
    erasure_key, index_entry, lemma_reinsert, shred_key, IndexEntryView, InsertionState,
    InsertionView, ShredSource,
};
use crate::ledger::{op_views, LedgerView, WriteOp, WriteOpView};
use crate::meta::{ErasureMeta, ErasureMetaStatus, Index, IndexView, ShredIndex};
use crate::metrics::{bump, bump_u64, more, more_u64, BlockstoreInsertionMetrics};
use crate::shred::{parse_shred, shred_views, Shred, ShredView};
use crate::types::Slot;

verus! {

/// Two coding shreds are of erasure sets of different sizes.
pub open spec fn mismatched(a: ShredView, b: ShredView) -> bool {
    a.coding_header.num_coding_shreds != b.coding_header.num_coding_shreds
        || a.coding_header.num_data_shreds != b.coding_header.num_data_shreds
}

/// What is known of the erasure set of a coding shred: in this batch, in the ledger, or from
/// the shred itself.
pub open spec fn erasure_entry(
    ledger: LedgerView,
    erasure_metas: Map<SlotIndex, ErasureMeta>,
    shred: ShredView,
) -> ErasureMeta {
    let key = erasure_key(shred);
    if erasure_metas.contains_key(key) {
        erasure_metas[key]
    } else if ledger.erasure_meta.contains_key(key) {
        ledger.erasure_meta[key]
    } else {
        shred.erasure_meta()->0
    }
}

/// The payload of the coding shred at `index`, in the ledger or else in this batch, if it is
/// of a set of another size than `shred`.
pub open spec fn conflict_at(
    ledger: LedgerView,
    code_shreds: Map<SlotIndex, ShredView>,
    shred: ShredView,
    index: u64,
) -> Option<Seq<u8>> {
    let key = SlotIndex { slot: shred.slot(), index };
    if ledger.code_shreds.contains_key(key) {
        let other = parse_shred(ledger.code_shreds[key])->0;
        if mismatched(other, shred) {
            Some(other.payload)
        } else {
            None
        }
    } else if code_shreds.contains_key(key) && mismatched(code_shreds[key], shred) {
        Some(code_shreds[key].payload)
    } else {
        None
    }
}

/// The first conflict from index `from` up to `to`, excluded.
pub open spec fn first_conflict(
    ledger: LedgerView,
    code_shreds: Map<SlotIndex, ShredView>,
    shred: ShredView,
    from: int,
    to: int,
) -> Option<Seq<u8>>
    decreases to - from,
{
    if from >= to {
        None
    } else if conflict_at(ledger, code_shreds, shred, from as u64) is Some {
        conflict_at(ledger, code_shreds, shred, from as u64)
    } else {
        first_conflict(ledger, code_shreds, shred, from + 1, to)
    }
}

/// The payload of the coding shred that `shred` conflicts with in its erasure set.
pub open spec fn conflicting_shred(
    ledger: LedgerView,
    code_shreds: Map<SlotIndex, ShredView>,
    shred: ShredView,
    meta: ErasureMeta,
) -> Option<Seq<u8>> {
    first_conflict(
        ledger,
        code_shreds,
        shred,
        meta.coding_start() as int,
        meta.coding_start() + meta.config.num_coding,
    )
}

/// An untrusted coding shred may be inserted.
pub open spec fn coding_shred_valid(shred: ShredView, last_root: Slot) -> bool {
    shred.is_code() && shred.sanitize() && shred.slot() > last_root
}

/// What came of a coding shred.
pub struct CodeStep {
    pub store: BlockstoreView,
    pub state: InsertionView,
    pub inserted: bool,
}

/// A coding shred is handed in: what it changes, and whether it is inserted.
pub open spec fn code_step(
    store: BlockstoreView,
    state: InsertionView,
    shred: ShredView,
    is_trusted: bool,
    is_repaired: bool,
) -> CodeStep {
    let slot = shred.slot();
    let key = shred_key(shred);
    let ie = index_entry(store.ledger, state.indexes, slot);
    let m = state.metrics;
    let state1 = InsertionView { indexes: state.indexes.insert(slot, ie), ..state };
    if !is_trusted && ie.index.coding.contains(shred.index() as u64) {
        CodeStep {
            store,
            state: InsertionView {
                duplicates: state.duplicates.push(shred),
                metrics: BlockstoreInsertionMetrics {
                    num_coding_shreds_exists: more(m.num_coding_shreds_exists, 1),
                    ..m
                },
                ..state1
            },
            inserted: false,
        }
    } else if !is_trusted && !coding_shred_valid(shred, store.last_root) {
        CodeStep {
            store,
            state: InsertionView {
                metrics: BlockstoreInsertionMetrics {
                    num_coding_shreds_invalid: more(m.num_coding_shreds_invalid, 1),
                    ..m
                },
                ..state1
            },
            inserted: false,
        }
    } else {
        let meta = erasure_entry(store.ledger, state.erasure_metas, shred);
        let state2 = InsertionView {
            erasure_metas: state.erasure_metas.insert(erasure_key(shred), meta),
            ..state1
        };
        if !shred.agrees_with(meta) {
            let conflict = conflicting_shred(store.ledger, state.code_shreds, shred, meta);
            CodeStep {
                store: match conflict {
                    Some(other) => store.with_duplicate(slot, other, shred.payload),
                    None => store,
                },
                state: InsertionView {
                    metrics: BlockstoreInsertionMetrics {
                        num_coding_shreds_invalid_erasure_config: more(
                            m.num_coding_shreds_invalid_erasure_config,
                            1,
                        ),
                        ..m
                    },
                    ..state2
                },
                inserted: false,
            }
        } else {
            CodeStep {
                store: if is_repaired {
                    store.counted(slot, ShredSource::Repaired)
                } else {
                    store
                },
                state: InsertionView {
                    indexes: state.indexes.insert(
                        slot,
                        IndexEntryView {
                            index: IndexView {
                                coding: ie.index.coding.insert(shred.index() as u64),
                                ..ie.index
                            },
                            did_insert_occur: true,
                        },
                    ),
                    code_shreds: if state.code_shreds.contains_key(key) {
                        state.code_shreds
                    } else {
                        state.code_shreds.insert(key, shred)
                    },
                    write_batch: state.write_batch.push(
                        WriteOpView::PutCodeShred(key, shred.payload),
                    ),
                    metrics: BlockstoreInsertionMetrics {
                        num_inserted: more_u64(m.num_inserted),
                        num_coding_shreds_inserted: if state.code_shreds.contains_key(key) {
                            m.num_coding_shreds_inserted
                        } else {
                            more(m.num_coding_shreds_inserted, 1)
                        },
                        ..m
                    },
                    ..state2
                },
                inserted: true,
            }
        }
    }
}

/// A coding shred may be handed in. A trusted one has consistent headers, unless it is refused
/// because it disagrees with what is known of its erasure set.
pub open spec fn code_allowed(
    store: BlockstoreView,
    state: InsertionView,
    shred: ShredView,
    is_trusted: bool,
) -> bool {
    let key = erasure_key(shred);
    let known = state.erasure_metas.contains_key(key) || store.ledger.erasure_meta.contains_key(
        key,
    );
    is_trusted ==> shred.sanitize() || (known && !shred.agrees_with(
        erasure_entry(store.ledger, state.erasure_metas, shred),
    ))
}

/// Every stored coding shred can be read.
pub open spec fn code_readable(ledger: LedgerView) -> bool {
    forall|k: SlotIndex| #[trigger]
        ledger.code_shreds.contains_key(k) ==> parse_shred(ledger.code_shreds[k]) is Some
}

/// The shreds of every erasure set have indexes of 32 bits.
pub open spec fn erasure_in_bounds(metas: Map<SlotIndex, ErasureMeta>) -> bool {
    forall|k: SlotIndex| #[trigger] metas.contains_key(k) ==> metas[k].in_bounds()
}

/// The shred at index `i`: of this batch, or, where it is present, from the ledger.
pub open spec fn recovery_shred(
    stored: Map<SlotIndex, Seq<u8>>,
    recent: Map<SlotIndex, ShredView>,
    present: Set<u64>,
    slot: Slot,
    i: u64,
) -> Option<ShredView> {
    let key = SlotIndex { slot, index: i };
    if recent.contains_key(key) {
        Some(recent[key])
    } else if !present.contains(i) || !stored.contains_key(key) {
        None
    } else {
        parse_shred(stored[key])
    }
}

/// The shreds that can be had from index `from` up to `to`, excluded.
pub open spec fn recovery_shreds(
    stored: Map<SlotIndex, Seq<u8>>,
    recent: Map<SlotIndex, ShredView>,
    present: Set<u64>,
    slot: Slot,
    from: int,
    to: int,
) -> Seq<ShredView>
    decreases to - from,
{
    if to <= from {
        Seq::empty()
    } else {
        let earlier = recovery_shreds(stored, recent, present, slot, from, to - 1);
        match recovery_shred(stored, recent, present, slot, (to - 1) as u64) {
            Some(shred) => earlier.push(shred),
            None => earlier,
        }
    }
}

/// The data shreds, then the coding shreds, that can be had of an erasure set.
pub open spec fn available_shreds(
    ledger: LedgerView,
    state: InsertionView,
    slot: Slot,
    meta: ErasureMeta,
) -> Seq<ShredView> {
    let index = state.indexes[slot].index;
    recovery_shreds(
        ledger.data_shreds,
        state.data_shreds,
        index.data,
        index.slot,
        meta.set_index as int,
        meta.set_index + meta.config.num_data,
    ) + recovery_shreds(
        ledger.code_shreds,
        state.code_shreds,
        index.coding,
        index.slot,
        meta.coding_start() as int,
        meta.coding_start() + meta.config.num_coding,
    )
}

/// The shreds of each of the sets in `keys` that can be recovered.
pub open spec fn recovery_sets(
    ledger: LedgerView,
    state: InsertionView,
    keys: Seq<SlotIndex>,
) -> Seq<Seq<ShredView>>
    decreases keys.len(),
{
    if keys.len() == 0 {
        Seq::empty()
    } else {
        let k = keys.last();
        let earlier = recovery_sets(ledger, state, keys.drop_last());
        let meta = state.erasure_metas[k];
        if meta.status_of(state.indexes[k.slot].index) == ErasureMetaStatus::CanRecover {
            earlier.push(available_shreds(ledger, state, k.slot, meta))
        } else {
            earlier
        }
    }
}

/// The models of sets of shreds.
pub open spec fn shred_sets(sets: Seq<Vec<Shred>>) -> Seq<Seq<ShredView>> {
    Seq::new(sets.len(), |i: int| shred_views(sets[i]@))
}

/// Collects the shreds that can be had from index `from` up to `to`, excluded.
fn get_recovery_shreds(
    stored: &Column<SlotIndex, Vec<u8>>,
    recent: &Column<SlotIndex, Shred>,
    present: &ShredIndex,
    slot: Slot,
    from: u64,
    to: u64,
    result: &mut Vec<Shred>,
)
    ensures
        shred_views(final(result)@) == shred_views(old(result)@) + recovery_shreds(
            stored@,
            recent@,
            present@,
            slot,
            from as int,
            to as int,
        ),
{
    let ghost before = shred_views(result@);
    if to <= from {
        assert(before + recovery_shreds(
            stored@,
            recent@,
            present@,
            slot,
            from as int,
            to as int,
        ) =~= before);
        return;
    }
    let mut i: u64 = from;
    assert(before + recovery_shreds(
        stored@,
        recent@,
        present@,
        slot,
        from as int,
        from as int,
    ) =~= before);
    while i < to
        invariant
            from <= i <= to,
            shred_views(result@) == before + recovery_shreds(
                stored@,
                recent@,
                present@,
                slot,
                from as int,
                i as int,
            ),
        decreases to - i,
    {
        let key = SlotIndex { slot, index: i };
        let ghost so_far = shred_views(result@);
        let found: Option<Shred> = match recent.get(&key) {
            Some(shred) => Some(shred.duplicate()),
            None => if !present.is_present(i) {
                None
            } else {
                match stored.get(&key) {
                    Some(bytes) => Shred::new_from_serialized_shred(bytes),
                    None => None,
                }
            },
        };
        match found {
            Some(shred) => {
                result.push(shred);
                assert(shred_views(result@) =~= so_far.push(shred@));
            },
            None => {},
        }
        assert(shred_views(result@) =~= before + recovery_shreds(
            stored@,
            recent@,
            present@,
            slot,
            from as int,
            i + 1,
        ));
        i += 1;
    }
}

impl Blockstore {
    /// Whether two coding shreds are of erasure sets of different sizes.
    fn erasure_mismatch(shred1: &Shred, shred2: &Shred) -> (result: bool)
        ensures
            result == mismatched(shred1@, shred2@),
    {
        shred1.coding_header.num_coding_shreds != shred2.coding_header.num_coding_shreds
            || shred1.coding_header.num_data_shreds != shred2.coding_header.num_data_shreds
    }

    /// Whether an untrusted coding shred may be inserted.
    pub fn should_insert_coding_shred(shred: &Shred, last_root: Slot) -> (result: bool)
        ensures
            result == coding_shred_valid(shred@, last_root),
    {
        shred.is_code() && shred.sanitize() && shred.slot() > last_root
    }

    /// The coding shred at `index`.
    pub fn get_coding_shred(&self, slot: Slot, index: u64) -> (result: Option<Vec<u8>>)
        ensures
            result is Some <==> self@.ledger.code_shreds.contains_key(SlotIndex { slot, index }),
            result is Some ==> result->0@ == self@.ledger.code_shreds[SlotIndex { slot, index }],
    {
        match self.ledger.code_shreds.get(&SlotIndex { slot, index }) {
            Some(bytes) => Some(bytes.duplicate()),
            None => None,
        }
    }

    /// Searches the erasure set of `shred`, in the ledger and in this batch, for a coding shred
    /// of a set of another size, and returns its payload.
    fn find_conflicting_coding_shred(
        &self,
        shred: &Shred,
        slot: Slot,
        erasure_meta: &ErasureMeta,
        just_received_shreds: &Column<SlotIndex, Shred>,
    ) -> (result: Option<Vec<u8>>)
        requires
            slot == shred@.slot(),
            erasure_meta.in_bounds(),
            code_readable(self@.ledger),
        ensures
            (match result {
                Some(bytes) => Some(bytes@),
                None => None,
            }) == conflicting_shred(
                self@.ledger,
                just_received_shreds@,
                shred@,
                *erasure_meta,
            ),
    {
        let start: u64 = erasure_meta.coding_shreds_start();
        let end: u64 = start + erasure_meta.config.num_coding;
        let mut coding_index: u64 = start;
        while coding_index < end
            invariant
                start <= coding_index <= end,
                start == erasure_meta.coding_start(),
                end == start + erasure_meta.config.num_coding,
                slot == shred@.slot(),
                code_readable(self@.ledger),
                first_conflict(
                    self@.ledger,
                    just_received_shreds@,
                    shred@,
                    start as int,
                    end as int,
                ) == first_conflict(
                    self@.ledger,
                    just_received_shreds@,
                    shred@,
                    coding_index as int,
                    end as int,
                ),
            decreases end - coding_index,
        {
            let key = SlotIndex { slot, index: coding_index };
            match self.get_coding_shred(slot, coding_index) {
                Some(shred_data) => {
                    match Shred::new_from_serialized_shred(&shred_data) {
                        Some(potential_shred) => {
                            if Self::erasure_mismatch(&potential_shred, shred) {
                                return Some(potential_shred.payload);
                            }
                        },
                        None => {
                            assert(self@.ledger.code_shreds.contains_key(key));
                            assert(false);
                        },
                    }
                },
                None => {
                    if let Some(potential_shred) = just_received_shreds.get(&key) {
                        if Self::erasure_mismatch(potential_shred, shred) {
                            return Some(potential_shred.payload.duplicate());
                        }
                    }
                },
            }
            coding_index += 1;
        }
        None
    }

    /// Adds the write of a coding shred to the batch, and notes it in the index of its slot.
    fn insert_coding_shred(index_meta: &mut Index, shred: &Shred, write_batch: &mut Vec<WriteOp>)
        requires
            shred@.is_code(),
            shred@.sanitize(),
        ensures
            final(index_meta)@ == (IndexView {
                coding: old(index_meta)@.coding.insert(shred@.index() as u64),
                ..old(index_meta)@
            }),
            op_views(final(write_batch)@) == op_views(old(write_batch)@).push(
                WriteOpView::PutCodeShred(shred_key(shred@), shred@.payload),
            ),
    {
        let slot: u64 = shred.slot();
        let shred_index: u64 = shred.index() as u64;
        write_batch.push(
            WriteOp::PutCodeShred(
                SlotIndex { slot, index: shred_index },
                shred.payload.duplicate(),
            ),
        );
        assert(op_views(write_batch@) =~= op_views(old(write_batch)@).push(
            WriteOpView::PutCodeShred(shred_key(shred@), shred@.payload),
        ));
        index_meta.coding.set_present(shred_index, true);
    }

    /// Checks a coding shred and inserts it. A trusted shred is not checked. A shred that is
    /// there already is set aside for the caller; one that does not fit its erasure set goes
    /// into a proof that its slot has two versions.
    pub fn check_insert_coding_shred(
        &mut self,
        shred: Shred,
        state: &mut InsertionState,
        is_trusted: bool,
        is_repaired: bool,
    ) -> (result: bool)
        requires
            shred@.is_code(),
            code_allowed(old(self)@, old(state)@, shred@, is_trusted),
            code_readable(old(self)@.ledger),
            erasure_in_bounds(old(self)@.ledger.erasure_meta),
            erasure_in_bounds(old(state)@.erasure_metas),
        ensures
            ({
                let step = code_step(
                    old(self)@,
                    old(state)@,
                    shred@,
                    is_trusted,
                    is_repaired,
                );
                &&& final(self)@ == step.store
                &&& final(state)@ == step.state
                &&& result == step.inserted
            }),
    {
        let slot: u64 = shred.slot();
        let shred_index: u64 = shred.index() as u64;
        let ghost state0 = state@;
        let mut index_entry = self.get_index_meta_entry(slot, &mut state.indexes);
        let ghost ie = index_entry@;
        proof {
            lemma_reinsert(state0.indexes, slot, ie);
        }
        if !is_trusted {
            if index_entry.index.coding.is_present(shred_index) {
                state.metrics.num_coding_shreds_exists = bump(
                    state.metrics.num_coding_shreds_exists,
                    1,
                );
                state.indexes.put(slot, index_entry);
                state.duplicates.push(shred);
                assert(shred_views(state.duplicates@) =~= state0.duplicates.push(shred@));
                return false;
            }
            if !Self::should_insert_coding_shred(&shred, self.last_root) {
                state.metrics.num_coding_shreds_invalid = bump(
                    state.metrics.num_coding_shreds_invalid,
                    1,
                );
                state.indexes.put(slot, index_entry);
                return false;
            }
        }
        let set_index: u64 = shred.fec_set_index() as u64;
        let set_key = SlotIndex { slot, index: set_index };
        let known: Option<ErasureMeta> = match state.erasure_metas.get(&set_key) {
            Some(meta) => Some(*meta),
            None => match self.ledger.erasure_meta.get(&set_key) {
                Some(meta) => Some(*meta),
                None => shred.erasure_meta(),
            },
        };
        let erasure_meta: ErasureMeta = match known {
            Some(meta) => meta,
            None => {
                assert(false);
                return false;
            },
        };
        assert(erasure_meta == erasure_entry(self@.ledger, state0.erasure_metas, shred@));
        state.erasure_metas.put(set_key, erasure_meta);
        if !shred.agrees_with(&erasure_meta) {
            state.metrics.num_coding_shreds_invalid_erasure_config = bump(
                state.metrics.num_coding_shreds_invalid_erasure_config,
                1,
            );
            let conflicting_shred = self.find_conflicting_coding_shred(
                &shred,
                slot,
                &erasure_meta,
                &state.code_shreds,
            );
            if let Some(conflicting_shred) = conflicting_shred {
                self.store_duplicate_if_not_existing(
                    slot,
                    conflicting_shred,
                    shred.payload.duplicate(),
                );
            }
            state.indexes.put(slot, index_entry);
            return false;
        }
        if is_repaired {
            self.count_shred(slot, ShredSource::Repaired);
        }
        Self::insert_coding_shred(&mut index_entry.index, &shred, &mut state.write_batch);
        index_entry.did_insert_occur = true;
        state.metrics.num_inserted = bump_u64(state.metrics.num_inserted);
        proof {
            lemma_reinsert(state0.indexes, slot, index_entry@);
        }
        state.indexes.put(slot, index_entry);
        let key = SlotIndex { slot, index: shred_index };
        if !state.code_shreds.contains(&key) {
            state.metrics.num_coding_shreds_inserted = bump(
                state.metrics.num_coding_shreds_inserted,
                1,
            );
            state.code_shreds.put(key, shred);
        }
        true
    }

    /// The data shreds that can be had of an erasure set, appended to `available`.
    fn get_recovery_data_shreds(
        &self,
        index: &Index,
        slot: Slot,
        erasure_meta: &ErasureMeta,
        prev_inserted_shreds: &Column<SlotIndex, Shred>,
        available: &mut Vec<Shred>,
    )
        requires
            erasure_meta.in_bounds(),
        ensures
            shred_views(final(available)@) == shred_views(old(available)@) + recovery_shreds(
                self@.ledger.data_shreds,
                prev_inserted_shreds@,
                index@.data,
                slot,
                erasure_meta.set_index as int,
                erasure_meta.set_index + erasure_meta.config.num_data,
            ),
    {
        get_recovery_shreds(
            &self.ledger.data_shreds,
            prev_inserted_shreds,
            &index.data,
            slot,
            erasure_meta.set_index,
            erasure_meta.set_index + erasure_meta.config.num_data,
            available,
        );
    }

    /// The coding shreds that can be had of an erasure set, appended to `available`.
    fn get_recovery_coding_shreds(
        &self,
        index: &Index,
        slot: Slot,
        erasure_meta: &ErasureMeta,
        prev_inserted_shreds: &Column<SlotIndex, Shred>,
        available: &mut Vec<Shred>,
    )
        requires
            erasure_meta.in_bounds(),
        ensures
            shred_views(final(available)@) == shred_views(old(available)@) + recovery_shreds(
                self@.ledger.code_shreds,
                prev_inserted_shreds@,
                index@.coding,
                slot,
                erasure_meta.coding_start() as int,
                erasure_meta.coding_start() + erasure_meta.config.num_coding,
            ),
    {
        let start: u64 = erasure_meta.coding_shreds_start();
        get_recovery_shreds(
            &self.ledger.code_shreds,
            prev_inserted_shreds,
            &index.coding,
            slot,
            start,
            start + erasure_meta.config.num_coding,
            available,
        );
    }

    /// For each erasure set that was touched by this batch, is not complete and has enough
    /// shreds to be completed, the shreds to complete it from.
    pub fn try_shred_recovery(&self, state: &InsertionState) -> (result: Vec<Vec<Shred>>)
        requires
            erasure_in_bounds(state@.erasure_metas),
            forall|k: SlotIndex| #[trigger]
                state@.erasure_metas.contains_key(k) ==> state@.indexes.contains_key(k.slot),
        ensures
            shred_sets(result@) == recovery_sets(
                self@.ledger,
                state@,
                ordered_keys(state@.erasure_metas),
            ),
    {
        let n: usize = state.erasure_metas.len();
        let ghost ks = ordered_keys(state@.erasure_metas);
        let mut result: Vec<Vec<Shred>> = Vec::new();
        let mut i: usize = 0;
        assert(ks.take(0) =~= Seq::empty());
        assert(shred_sets(result@) =~= Seq::empty());
        while i < n
            invariant
                0 <= i <= n,
                n == ks.len(),
                ks == ordered_keys(state@.erasure_metas),
                erasure_in_bounds(state@.erasure_metas),
                forall|k: SlotIndex| #[trigger]
                    state@.erasure_metas.contains_key(k) ==> state@.indexes.contains_key(k.slot),
                shred_sets(result@) == recovery_sets(self@.ledger, state@, ks.take(i as int)),
            decreases n - i,
        {
            let key = state.erasure_metas.key_at(i);
            let erasure_meta = *state.erasure_metas.value_at(i);
            let ghost so_far = shred_sets(result@);
            proof {
                assert(ks.take(i + 1).drop_last() =~= ks.take(i as int));
                assert(ks.take(i + 1).last() == key);
                assert(erasure_meta.in_bounds());
            }
            match state.indexes.get(&key.slot) {
                Some(entry) => {
                    if erasure_meta.status(&entry.index) == ErasureMetaStatus::CanRecover {
                        let mut available: Vec<Shred> = Vec::new();
                        assert(shred_views(available@) =~= Seq::empty());
                        self.get_recovery_data_shreds(
                            &entry.index,
                            entry.index.slot,
                            &erasure_meta,
                            &state.data_shreds,
                            &mut available,
                        );
                        self.get_recovery_coding_shreds(
                            &entry.index,
                            entry.index.slot,
                            &erasure_meta,
                            &state.code_shreds,
                            &mut available,
                        );
                        assert(shred_views(available@) =~= available_shreds(
                            self@.ledger,
                            state@,
                            key.slot,
                            erasure_meta,
                        ));
                        result.push(available);
                        assert(shred_sets(result@) =~= so_far.push(shred_views(available@)));
                    }
                },
                None => {
                    assert(false);
                },
            }
            i += 1;
        }
        assert(ks.take(n as int) =~= ks);
        result
    }
}

} // verus!
