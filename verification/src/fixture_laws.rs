//! What the slots that are made up for trials hold, and how trees of them grow.

use vstd::prelude::*;
use crate::blockstore::BlockstoreView;
use crate::entries::{bincode_bytes, encoded_entries};
use crate::fixtures::{
    can_follow, chain_of_ticks, chain_parent, slot_of_ticks, test_shreds, ticks, ticks_in_shreds,
};
use crate::forks::{growth, growth_step, Growth};
use crate::insert::{batch_inserted, unrepaired};
use crate::metrics::BlockstoreInsertionMetrics;
use crate::records::EntryView;
use crate::shred::{joined_data, ShredType, ShredView};
use crate::shredder::Shredder;
use crate::types::{zero_hash, Blockhash, Slot};
use crate::writing_laws::law_shreds_are_numbered;

verus! {

/// Some entries are ticks, each of which ends in a hash.
pub open spec fn are_ticks(entries: Seq<EntryView>, hash: Blockhash) -> bool {
    forall|i: int|
        0 <= i < entries.len() ==> (#[trigger] entries[i]).num_hashes == 0 && entries[i].hash == hash
            && entries[i].transactions.len() == 0
}

/// Some shreds are those of a slot, numbered from 0 on, each of which names the parent. The last
/// ends the slot where it is full, and no other does.
pub open spec fn fill_slot(
    shreds: Seq<ShredView>,
    slot: Slot,
    parent_slot: Slot,
    is_full_slot: bool,
) -> bool {
    forall|i: int|
        0 <= i < shreds.len() ==> {
            let shred = #[trigger] shreds[i];
            &&& shred.common_header.shred_type == ShredType::Data
            &&& shred.common_header.slot == slot
            &&& shred.common_header.index == i
            &&& shred.common_header.slot - shred.data_header.parent_offset == parent_slot
            &&& (shred.data_header.flags & 0x80 == 0x80) == (is_full_slot && i == shreds.len() - 1)
        }
}

/// Some shreds carry `n` ticks that end in a hash, encoded, as those of a slot.
pub open spec fn carry_ticks(
    shreds: Seq<ShredView>,
    slot: Slot,
    parent_slot: Slot,
    is_full_slot: bool,
    n: int,
    hash: Blockhash,
) -> bool {
    exists|entries: Seq<EntryView>|
        {
            let bytes = bincode_bytes(#[trigger] encoded_entries(entries));
            &&& entries.len() == n
            &&& are_ticks(entries, hash)
            &&& bytes is Some
            &&& bytes->0.len() > 0 ==> joined_data(shreds) == bytes->0 && fill_slot(
                shreds,
                slot,
                parent_slot,
                is_full_slot,
            )
        }
}

proof fn lemma_carry_ticks(
    n: nat,
    hash: Blockhash,
    slot: Slot,
    parent_slot: Slot,
    is_full_slot: bool,
)
    requires
        can_follow(slot, parent_slot),
    ensures
        test_shreds(ticks(n, hash), slot, parent_slot, is_full_slot, 0) matches Some(shreds)
            ==> carry_ticks(shreds, slot, parent_slot, is_full_slot, n as int, hash),
{
    let entries = ticks(n, hash);
    match test_shreds(entries, slot, parent_slot, is_full_slot, 0) {
        None => {},
        Some(shreds) => {
            let bytes = bincode_bytes(encoded_entries(entries));
            let shredder = Shredder { slot, parent_slot, reference_tick: 0, version: 0 };
            if bytes->0.len() > 0 {
                law_shreds_are_numbered(shredder, bytes->0, is_full_slot, 0);
                assert(fill_slot(shreds, slot, parent_slot, is_full_slot));
            }
            assert(are_ticks(entries, hash));
            assert(carry_ticks(shreds, slot, parent_slot, is_full_slot, n as int, hash));
        },
    }
}

/// The shreds of a slot that is full with ticks carry as many ticks as were asked for, each of
/// which ends in the zero hash, and name the slot and its parent; the last one ends the slot.
pub proof fn law_slot_is_full_with_ticks(slot: Slot, parent_slot: Slot, num_entries: u64)
    requires
        can_follow(slot, parent_slot),
    ensures
        slot_of_ticks(slot, parent_slot, num_entries) matches Some(shreds) ==> carry_ticks(
            shreds,
            slot,
            parent_slot,
            true,
            num_entries as int,
            zero_hash(),
        ),
{
    lemma_carry_ticks(num_entries as nat, zero_hash(), slot, parent_slot, true);
}

/// The slot before a slot; slot 0 is its own.
pub open spec fn slot_before(slot: int) -> int {
    if slot == 0 {
        0
    } else {
        slot - 1
    }
}

/// The shreds of a chain of slots are those of each slot, one slot after the other, and each slot
/// is full with ticks and builds on the slot before it.
pub proof fn law_chain_is_unbroken(start_slot: Slot, n: nat, entries_per_slot: u64)
    requires
        start_slot + n <= u64::MAX,
    ensures
        chain_of_ticks(start_slot, n, entries_per_slot) matches Some(all) ==> exists|
            slots: Seq<Seq<ShredView>>,
        | #[trigger] chained_in(slots, all, start_slot, n, entries_per_slot),
    decreases n,
{
    if chain_of_ticks(start_slot, n, entries_per_slot) is Some {
        let all = chain_of_ticks(start_slot, n, entries_per_slot)->0;
        if n == 0 {
            let slots = Seq::<Seq<ShredView>>::empty();
            assert(slots.flatten() =~= all);
            assert(chained_in(slots, all, start_slot, n, entries_per_slot));
        } else {
            let m = (n - 1) as nat;
            law_chain_is_unbroken(start_slot, m, entries_per_slot);
            let earlier = chain_of_ticks(start_slot, m, entries_per_slot)->0;
            let before = choose|slots: Seq<Seq<ShredView>>| #[trigger]
                chained_in(slots, earlier, start_slot, m, entries_per_slot);
            let slot = (start_slot + m) as u64;
            let parent = slot_before(slot as int) as u64;
            let own = slot_of_ticks(slot, parent, entries_per_slot)->0;
            law_slot_is_full_with_ticks(slot, parent, entries_per_slot);
            let slots = before.push(own);
            before.lemma_flatten_push(own);
            assert forall|j: int| 0 <= j < n implies carry_ticks(
                #[trigger] slots[j],
                (start_slot + j) as u64,
                slot_before(start_slot + j) as u64,
                true,
                entries_per_slot as int,
                zero_hash(),
            ) by {
                if j < m {
                    assert(slots[j] == before[j]);
                }
            }
            assert(chained_in(slots, all, start_slot, n, entries_per_slot));
        }
    }
}

/// Some shreds are those of `n` slots, one slot after the other.
pub open spec fn chained_in(
    slots: Seq<Seq<ShredView>>,
    all: Seq<ShredView>,
    start_slot: Slot,
    n: nat,
    entries_per_slot: u64,
) -> bool {
    &&& slots.len() == n
    &&& all == slots.flatten()
    &&& forall|j: int|
        0 <= j < n ==> carry_ticks(
            #[trigger] slots[j],
            (start_slot + j) as u64,
            slot_before(start_slot + j) as u64,
            true,
            entries_per_slot as int,
            zero_hash(),
        )
}

/// Each slot of a chain builds on the one before it in the chain; the first builds on slot 0.
pub proof fn law_chain_parents(chain: Seq<u64>, i: int)
    requires
        0 <= i < chain.len(),
        chain[i] > 0,
    ensures
        i > 0 ==> chain_parent(chain, i) == chain[i - 1],
        i == 0 ==> chain_parent(chain, i) == 0,
{
}

/// As many ticks are said to fit into some shreds as do, at 48 bytes for a tick, 8 for their
/// number, and 1051 in a shred, and no more.
pub proof fn law_ticks_fit(num_shreds: u64)
    requires
        num_shreds > 0,
    ensures
        8 + 48 * ticks_in_shreds(num_shreds) <= 1051 * num_shreds,
        8 + 48 * (ticks_in_shreds(num_shreds) + 1) > 1051 * num_shreds,
{
}

/// A store comes from another one by inserting a slot of ticks, of which none was repaired.
pub open spec fn inserts_ticks(
    store: BlockstoreView,
    after: BlockstoreView,
    slot: Slot,
    parent_slot: Slot,
    is_full_slot: bool,
    n: int,
    hash: Blockhash,
    now: u64,
) -> bool {
    exists|shreds: Seq<ShredView>|
        {
            &&& #[trigger] carry_ticks(shreds, slot, parent_slot, is_full_slot, n, hash)
            &&& after == batch_inserted(
                store,
                shreds,
                Seq::new(shreds.len(), |i: int| false),
                false,
                now,
                BlockstoreInsertionMetrics::zero(),
                None,
                false,
            ).0
        }
}

/// A walk that comes to a node goes by it where its slot is known and no orphan, or where it is
/// the root of a tree of orphans. Else it inserts the slot: with the given number of ticks for each
/// slot from its parent on, one less where the slot is not to be complete, each of which ends in
/// the hash of the parent, or the starting hash where none is noted; and it notes that hash for
/// the slot. The root names itself as its parent.
pub proof fn law_node_is_filled(
    g: Growth,
    visit: (u64, Option<u64>),
    is_orphan: bool,
    is_slot_complete: bool,
    num_ticks: u64,
    starting_hash: Blockhash,
    now: u64,
)
    requires
        g.succeeded,
        num_ticks > 0,
    ensures
        ({
            let next = growth_step(
                g,
                visit,
                is_orphan,
                is_slot_complete,
                num_ticks,
                starting_hash,
                now,
            );
            let slot = visit.0;
            let parent = if visit.1 is Some {
                visit.1->0
            } else {
                slot
            };
            let hash = if visit.1 is Some && g.hashes.contains_key(parent) {
                g.hashes[parent]
            } else {
                starting_hash
            };
            let spanned = if slot > parent {
                slot - parent
            } else {
                1
            };
            let n = if is_slot_complete {
                num_ticks * spanned
            } else {
                num_ticks * spanned - 1
            };
            let ledger = g.store.ledger;
            let goes_by = (ledger.meta.contains_key(slot) && !ledger.orphans.contains_key(slot))
                || (visit.1 is None && is_orphan);
            &&& goes_by ==> next == g
            &&& !goes_by && next.succeeded ==> {
                &&& parent <= slot
                &&& next.hashes == g.hashes.insert(slot, hash)
                &&& inserts_ticks(
                    g.store,
                    next.store,
                    slot,
                    parent,
                    is_slot_complete,
                    n,
                    hash,
                    now,
                )
            }
            &&& !next.succeeded ==> next.store == g.store
        }),
{
    let slot = visit.0;
    let parent = if visit.1 is Some {
        visit.1->0
    } else {
        slot
    };
    let hash = if visit.1 is Some && g.hashes.contains_key(parent) {
        g.hashes[parent]
    } else {
        starting_hash
    };
    let spanned = if slot > parent {
        slot - parent
    } else {
        1
    };
    assert(num_ticks * spanned >= 1) by (nonlinear_arith)
        requires
            num_ticks > 0,
            spanned >= 1,
    ;
    let n = if is_slot_complete {
        num_ticks * spanned
    } else {
        num_ticks * spanned - 1
    };
    if can_follow(slot, parent) {
        lemma_carry_ticks(n as nat, hash, slot, parent, is_slot_complete);
        let made = test_shreds(ticks(n as nat, hash), slot, parent, is_slot_complete, 0);
        if made is Some {
            let shreds = made->0;
            assert(unrepaired(shreds.len()) =~= Seq::new(shreds.len(), |i: int| false));
            assert(carry_ticks(shreds, slot, parent, is_slot_complete, n, hash));
        }
    }
    let next = growth_step(
        g,
        visit,
        is_orphan,
        is_slot_complete,
        num_ticks,
        starting_hash,
        now,
    );
    let known = g.store.ledger.meta.contains_key(slot) && !g.store.ledger.orphans.contains_key(
        slot,
    );
    if !known && !(visit.1 is None && is_orphan) && next.succeeded {
        let shreds = test_shreds(ticks(n as nat, hash), slot, parent, is_slot_complete, 0)->0;
        assert(carry_ticks(shreds, slot, parent, is_slot_complete, n, hash));
        assert(inserts_ticks(
            g.store,
            next.store,
            slot,
            parent,
            is_slot_complete,
            n,
            hash,
            now,
        ));
    }
}

/// A walk over some nodes and then over more is a walk over all of them.
pub proof fn law_walk_goes_on(
    g: Growth,
    first: Seq<(u64, Option<u64>)>,
    second: Seq<(u64, Option<u64>)>,
    is_orphan: bool,
    is_slot_complete: bool,
    num_ticks: u64,
    starting_hash: Blockhash,
    now: u64,
)
    ensures
        growth(
            g,
            first + second,
            is_orphan,
            is_slot_complete,
            num_ticks,
            starting_hash,
            now,
        ) == growth(
            growth(g, first, is_orphan, is_slot_complete, num_ticks, starting_hash, now),
            second,
            is_orphan,
            is_slot_complete,
            num_ticks,
            starting_hash,
            now,
        ),
        first.len() == 1 ==> growth(
            g,
            first,
            is_orphan,
            is_slot_complete,
            num_ticks,
            starting_hash,
            now,
        ) == growth_step(
            g,
            first[0],
            is_orphan,
            is_slot_complete,
            num_ticks,
            starting_hash,
            now,
        ),
    decreases first.len(),
{
    if first.len() == 0 {
        assert(first + second =~= second);
    } else {
        let next = growth_step(
            g,
            first[0],
            is_orphan,
            is_slot_complete,
            num_ticks,
            starting_hash,
            now,
        );
        assert((first + second).drop_first() =~= first.drop_first() + second);
        law_walk_goes_on(
            next,
            first.drop_first(),
            second,
            is_orphan,
            is_slot_complete,
            num_ticks,
            starting_hash,
            now,
        );
        if first.len() == 1 {
            assert(first.drop_first() =~= Seq::empty());
        }
    }
}

} // verus!
