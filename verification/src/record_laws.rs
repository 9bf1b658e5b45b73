//! What is written of a slot, a transaction or a program is read back.

use vstd::prelude::*;
use crate::blocks::{block_height_of, block_time_of, rewards_of};
use crate::blockstore::{lemma_apply_one, BlockstoreView};
use crate::ledger::{LedgerView, WriteOpView};
use crate::meta::{DuplicateSlotProofView, FrozenHashStatus, PerfSample, ProgramCost};
use crate::records::Reward;
use crate::roots::confirmed_hash_writes;
use crate::slot_entries::dead;
use crate::transactions::memo_of;
use crate::types::{Blockhash, Pubkey, Signature, Slot, UnixTimestamp};

verus! {

/// A slot that is marked dead is dead, and no longer once the mark is taken off; the other slots
/// stay what they are.
pub proof fn law_dead_marks(store: BlockstoreView, slot: Slot)
    ensures
        ({
            let marked = store.commit_one(WriteOpView::PutDeadSlot(slot, true));
            let cleared = marked.commit_one(WriteOpView::DeleteDeadSlot(slot));
            &&& dead(marked.ledger, slot)
            &&& !dead(cleared.ledger, slot)
            &&& forall|s: Slot|
                s != slot ==> #[trigger] dead(cleared.ledger, s) == dead(store.ledger, s)
            &&& forall|s: Slot|
                s != slot ==> #[trigger] dead(marked.ledger, s) == dead(store.ledger, s)
        }),
{
    let mark = WriteOpView::PutDeadSlot(slot, true);
    let marked = store.commit_one(mark);
    lemma_apply_one(store.ledger, mark);
    lemma_apply_one(marked.ledger, WriteOpView::DeleteDeadSlot(slot));
}

/// The first proof that a slot has two versions stays: once there is one, another changes
/// nothing.
pub proof fn law_first_proof_stays(
    store: BlockstoreView,
    slot: Slot,
    shred1: Seq<u8>,
    shred2: Seq<u8>,
    shred3: Seq<u8>,
    shred4: Seq<u8>,
)
    ensures
        ({
            let proved = store.with_duplicate(slot, shred1, shred2);
            &&& proved.ledger.duplicate_slots.contains_key(slot)
            &&& !store.ledger.duplicate_slots.contains_key(slot) ==> {
                let proof_kept = proved.ledger.duplicate_slots[slot];
                proof_kept.shred1 == shred1 && proof_kept.shred2 == shred2
            }
            &&& proved.with_duplicate(slot, shred3, shred4) == proved
        }),
{
    if !store.ledger.duplicate_slots.contains_key(slot) {
        lemma_apply_one(
            store.ledger,
            WriteOpView::PutDuplicateSlot(
                slot,
                DuplicateSlotProofView { shred1, shred2 },
            ),
        );
    }
}

/// The hash of a frozen bank is read back, and once it is confirmed, keeping it again does not
/// take the confirmation away.
pub proof fn law_confirmed_hash_stays(store: BlockstoreView, slot: Slot, hash: Blockhash)
    ensures
        ({
            let confirmed = store.with_bank_hash(slot, hash, true);
            let again = confirmed.with_bank_hash(slot, hash, false);
            &&& confirmed.ledger.bank_hash.contains_key(slot)
            &&& confirmed.ledger.bank_hash[slot].frozen_hash == hash
            &&& confirmed.ledger.bank_hash[slot].is_duplicate_confirmed
            &&& again == confirmed
        }),
{
    lemma_apply_one(
        store.ledger,
        WriteOpView::PutBankHash(
            slot,
            FrozenHashStatus { frozen_hash: hash, is_duplicate_confirmed: true },
        ),
    );
}

/// The hash of a frozen bank replaces another one, or one that is not confirmed, and is then
/// confirmed exactly as it is given. Only the same hash that is confirmed already stays. The other
/// slots keep theirs.
pub proof fn law_hash_is_replaced(
    store: BlockstoreView,
    slot: Slot,
    hash: Blockhash,
    is_confirmed: bool,
)
    ensures
        ({
            let before = store.ledger.bank_hash;
            let after = store.with_bank_hash(slot, hash, is_confirmed).ledger;
            let stays = before.contains_key(slot) && before[slot].frozen_hash == hash
                && before[slot].is_duplicate_confirmed;
            &&& after.bank_hash.contains_key(slot)
            &&& after.bank_hash[slot].frozen_hash == hash
            &&& after.bank_hash[slot].is_duplicate_confirmed == (stays || is_confirmed)
            &&& after.bank_hash.remove(slot) == before.remove(slot)
            &&& after == LedgerView { bank_hash: after.bank_hash, ..store.ledger }
        }),
{
    let put = WriteOpView::PutBankHash(
        slot,
        FrozenHashStatus { frozen_hash: hash, is_duplicate_confirmed: is_confirmed },
    );
    lemma_apply_one(store.ledger, put);
    let after = store.with_bank_hash(slot, hash, is_confirmed).ledger;
    assert(after.bank_hash.remove(slot) =~= store.ledger.bank_hash.remove(slot));
}

/// The time, the height and the rewards of a block are read back, and those of other slots stay
/// what they are.
pub proof fn law_block_records_read_back(
    store: BlockstoreView,
    slot: Slot,
    time: UnixTimestamp,
    height: u64,
    rewards: Seq<Reward>,
)
    ensures
        ({
            let timed = store.commit_one(WriteOpView::PutBlockTime(slot, time)).ledger;
            let ranked = store.commit_one(WriteOpView::PutBlockHeight(slot, height)).ledger;
            let paid = store.commit_one(WriteOpView::PutRewards(slot, rewards)).ledger;
            &&& block_time_of(timed, slot) == Some(time)
            &&& block_height_of(ranked, slot) == Some(height)
            &&& rewards_of(paid, slot) == rewards
            &&& forall|s: Slot|
                s != slot ==> #[trigger] block_time_of(timed, s) == block_time_of(store.ledger, s)
            &&& forall|s: Slot|
                s != slot ==> #[trigger] block_height_of(ranked, s) == block_height_of(
                    store.ledger,
                    s,
                )
            &&& forall|s: Slot|
                s != slot ==> #[trigger] rewards_of(paid, s) == rewards_of(store.ledger, s)
        }),
{
    lemma_apply_one(store.ledger, WriteOpView::PutBlockTime(slot, time));
    lemma_apply_one(store.ledger, WriteOpView::PutBlockHeight(slot, height));
    lemma_apply_one(store.ledger, WriteOpView::PutRewards(slot, rewards));
}

/// The memo of a transaction is read back, and those of others stay what they are.
pub proof fn law_memo_reads_back(store: BlockstoreView, signature: Signature, memo: Seq<char>)
    ensures
        ({
            let kept = store.commit_one(WriteOpView::PutTransactionMemo(signature, memo)).ledger;
            &&& memo_of(kept, signature) == Some(memo)
            &&& forall|s: Signature|
                s != signature ==> #[trigger] memo_of(kept, s) == memo_of(store.ledger, s)
        }),
{
    lemma_apply_one(store.ledger, WriteOpView::PutTransactionMemo(signature, memo));
}

/// The cost of a program and a sample of the throughput are kept until they are replaced or
/// dropped.
pub proof fn law_measurements_are_kept(
    store: BlockstoreView,
    program: Pubkey,
    cost: u64,
    slot: Slot,
    sample: PerfSample,
)
    ensures
        ({
            let priced = store.commit_one(
                WriteOpView::PutProgramCost(program, ProgramCost { cost }),
            );
            let dropped = priced.commit_one(WriteOpView::DeleteProgramCost(program));
            let sampled = store.commit_one(WriteOpView::PutPerfSample(slot, sample));
            &&& priced.ledger.program_costs == store.ledger.program_costs.insert(
                program,
                ProgramCost { cost },
            )
            &&& dropped.ledger.program_costs == store.ledger.program_costs.remove(program)
            &&& sampled.ledger.perf_samples == store.ledger.perf_samples.insert(slot, sample)
        }),
{
    let put = WriteOpView::PutProgramCost(program, ProgramCost { cost });
    let priced = store.commit_one(put);
    lemma_apply_one(store.ledger, put);
    lemma_apply_one(priced.ledger, WriteOpView::DeleteProgramCost(program));
    lemma_apply_one(store.ledger, WriteOpView::PutPerfSample(slot, sample));
    assert(store.ledger.program_costs.insert(program, ProgramCost { cost }).remove(program)
        =~= store.ledger.program_costs.remove(program));
}

/// One of some hashes is of a slot.
pub open spec fn some_of_slot(hashes: Seq<(Slot, Blockhash)>, slot: Slot) -> bool {
    exists|i: int| 0 <= i < hashes.len() && (#[trigger] hashes[i]).0 == slot
}

/// The last of some hashes that is of a slot.
pub open spec fn last_of_slot(
    hashes: Seq<(Slot, Blockhash)>,
    slot: Slot,
    hash: Blockhash,
) -> bool {
    exists|i: int|
        0 <= i < hashes.len() && #[trigger] hashes[i] == (slot, hash) && !some_of_slot(
            hashes.skip(i + 1),
            slot,
        )
}

/// Of some confirmed hashes, the last one of each slot is kept, as confirmed; the slots that are
/// not among them keep what they had.
pub proof fn law_confirmed_hashes_are_kept(
    store: BlockstoreView,
    hashes: Seq<(Slot, Blockhash)>,
    slot: Slot,
    hash: Blockhash,
)
    ensures
        ({
            let before = store.ledger.bank_hash;
            let after = store.commit(confirmed_hash_writes(hashes)).ledger;
            &&& last_of_slot(hashes, slot, hash) ==> after.bank_hash.contains_key(slot)
                && after.bank_hash[slot].frozen_hash == hash
                && after.bank_hash[slot].is_duplicate_confirmed
            &&& !some_of_slot(hashes, slot) ==> (after.bank_hash.contains_key(slot)
                <==> before.contains_key(slot)) && after.bank_hash[slot] == before[slot]
            &&& after == LedgerView { bank_hash: after.bank_hash, ..store.ledger }
        }),
    decreases hashes.len(),
{
    let writes = confirmed_hash_writes(hashes);
    let after = store.commit(writes).ledger;
    if hashes.len() > 0 {
        let earlier = hashes.drop_last();
        let n = hashes.len() - 1;
        law_confirmed_hashes_are_kept(store, earlier, slot, hash);
        assert(writes.drop_last() =~= confirmed_hash_writes(earlier));
        let middle = store.commit(confirmed_hash_writes(earlier)).ledger;
        assert(after == middle.apply(writes.last()));
        if last_of_slot(hashes, slot, hash) {
            let i = choose|i: int|
                0 <= i < hashes.len() && #[trigger] hashes[i] == (slot, hash) && !some_of_slot(
                    hashes.skip(i + 1),
                    slot,
                );
            if i < n {
                let behind = hashes.skip(i + 1);
                assert(behind[n - i - 1] == hashes[n]);
                assert(hashes[n].0 != slot);
                assert(earlier[i] == (slot, hash));
                if some_of_slot(earlier.skip(i + 1), slot) {
                    let j = choose|j: int|
                        0 <= j < earlier.skip(i + 1).len() && (#[trigger] earlier.skip(i + 1)[j]).0
                            == slot;
                    assert(behind[j] == earlier.skip(i + 1)[j]);
                }
                assert(last_of_slot(earlier, slot, hash));
            }
        }
        if !some_of_slot(hashes, slot) {
            assert(hashes[n].0 != slot);
            if some_of_slot(earlier, slot) {
                let j = choose|j: int| 0 <= j < earlier.len() && (#[trigger] earlier[j]).0 == slot;
                assert(hashes[j] == earlier[j]);
            }
        }
    } else {
        assert(writes =~= Seq::empty());
    }
}

} // verus!
