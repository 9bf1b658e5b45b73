//! How a stream of entries is divided into slots, and slots into shreds.

use vstd::prelude::*;
use crate::entries::{bincode_bytes, encoded_entries};
use crate::fixtures::can_follow;
use crate::records::EntryView;
use crate::shred::{
    data_flags, joined_data, parse_shred, ShredType, ShredView, SIZE_OF_DATA_SHRED_PAYLOAD,
};
use crate::shredder::{law_shreds_join_to_bytes, lemma_shred_reads_back, num_data_shreds, Shredder};
use crate::types::Slot;
use crate::writing::{
    can_divide, divided, division, division_start, runs_data, runs_follow, total_len, with_codes,
    Division, SlotRunView,
};

verus! {

/// The entries of some slots, one slot after the other.
pub open spec fn all_entries(runs: Seq<SlotRunView>) -> Seq<EntryView>
    decreases runs.len(),
{
    if runs.len() == 0 {
        Seq::empty()
    } else {
        all_entries(runs.drop_last()) + runs.last().entries
    }
}

/// How many of some entries are ticks: hold no transaction.
pub open spec fn ticks_among(entries: Seq<EntryView>) -> nat
    decreases entries.len(),
{
    if entries.len() == 0 {
        0
    } else {
        ticks_among(entries.drop_last()) + if entries.last().transactions.len() == 0 {
            1nat
        } else {
            0nat
        }
    }
}

/// The parent of the first slot: the one that is given, or else the slot before it; slot 0 is its
/// own.
pub open spec fn parent_of_first(start_slot: Slot, parent: Option<u64>) -> Slot {
    if parent is Some {
        parent->0
    } else if start_slot == 0 {
        0
    } else {
        (start_slot - 1) as u64
    }
}

/// How many ticks a slot takes: those of one slot; but the first one those of all slots from its
/// parent on, less those that it has.
pub open spec fn ticks_to_take(
    start_slot: Slot,
    num_ticks_in_start_slot: u64,
    ticks_per_slot: u64,
    parent: Option<u64>,
    i: int,
) -> int {
    if i > 0 {
        ticks_per_slot as int
    } else {
        let parent_slot = parent_of_first(start_slot, parent);
        (if start_slot > parent_slot {
            start_slot - parent_slot
        } else {
            1int
        }) * ticks_per_slot - num_ticks_in_start_slot
    }
}

/// A slot has the number and the parent that it should have: each slot follows the one before it
/// and builds on it.
pub open spec fn slot_follows(
    start_slot: Slot,
    parent: Option<u64>,
    i: int,
    slot: Slot,
    parent_slot: Slot,
) -> bool {
    &&& slot == start_slot + i
    &&& parent_slot == if i == 0 {
        parent_of_first(start_slot, parent) as int
    } else {
        start_slot + i - 1
    }
}

/// One of the slots that is not the last: it is full, with all the ticks that it takes, and its
/// last entry is the last of these.
pub open spec fn is_full_run(
    start_slot: Slot,
    num_ticks_in_start_slot: u64,
    start_index: u32,
    ticks_per_slot: u64,
    parent: Option<u64>,
    runs: Seq<SlotRunView>,
    i: int,
) -> bool {
    let run = runs[i];
    &&& slot_follows(start_slot, parent, i, run.slot, run.parent_slot)
    &&& run.start_index == if i == 0 {
        start_index
    } else {
        0
    }
    &&& run.is_full_slot
    &&& run.entries.len() > 0
    &&& run.entries[run.entries.len() - 1].transactions.len() == 0
    &&& ticks_among(run.entries) == ticks_to_take(
        start_slot,
        num_ticks_in_start_slot,
        ticks_per_slot,
        parent,
        i,
    )
}

/// What holds midway through a division.
spec fn midway(
    start_slot: Slot,
    num_ticks_in_start_slot: u64,
    start_index: u32,
    ticks_per_slot: u64,
    parent: Option<u64>,
    entries: Seq<EntryView>,
    d: Division,
) -> bool {
    let n = d.runs.len() as int;
    &&& all_entries(d.runs) + d.pending == entries
    &&& n <= entries.len()
    &&& slot_follows(start_slot, parent, n, d.slot, d.parent_slot)
    &&& forall|i: int|
        0 <= i < n ==> #[trigger] is_full_run(
            start_slot,
            num_ticks_in_start_slot,
            start_index,
            ticks_per_slot,
            parent,
            d.runs,
            i,
        )
    &&& ticks_among(d.pending) + d.remaining_ticks == ticks_to_take(
        start_slot,
        num_ticks_in_start_slot,
        ticks_per_slot,
        parent,
        n,
    )
    &&& d.remaining_ticks >= 0
    &&& ticks_to_take(start_slot, num_ticks_in_start_slot, ticks_per_slot, parent, n) > 0
    &&& d.remaining_ticks == 0 ==> d.pending.len() > 0 && d.pending.last().transactions.len() == 0
    &&& entries.len() > 0 ==> d.pending.len() > 0
}

proof fn lemma_midway(
    start_slot: Slot,
    num_ticks_in_start_slot: u64,
    start_index: u32,
    ticks_per_slot: u64,
    parent: Option<u64>,
    entries: Seq<EntryView>,
)
    requires
        can_divide(
            start_slot,
            num_ticks_in_start_slot,
            ticks_per_slot,
            parent,
            entries.len() as int,
        ),
        ticks_per_slot > 0,
    ensures
        midway(
            start_slot,
            num_ticks_in_start_slot,
            start_index,
            ticks_per_slot,
            parent,
            entries,
            division(
                division_start(start_slot, num_ticks_in_start_slot, ticks_per_slot, parent),
                entries,
                start_index,
                ticks_per_slot,
            ),
        ),
    decreases entries.len(),
{
    let start = division_start(start_slot, num_ticks_in_start_slot, ticks_per_slot, parent);
    let d = division(start, entries, start_index, ticks_per_slot);
    if entries.len() == 0 {
        assert(all_entries(d.runs) + d.pending =~= entries);
    } else {
        let before = entries.drop_last();
        let entry = entries.last();
        lemma_midway(
            start_slot,
            num_ticks_in_start_slot,
            start_index,
            ticks_per_slot,
            parent,
            before,
        );
        let e = division(start, before, start_index, ticks_per_slot);
        let n = e.runs.len() as int;
        if e.remaining_ticks == 0 {
            let run = SlotRunView {
                slot: e.slot,
                parent_slot: e.parent_slot,
                start_index: if e.runs.len() == 0 {
                    start_index
                } else {
                    0
                },
                is_full_slot: true,
                entries: e.pending,
            };
            assert(d.runs == e.runs.push(run));
            assert(d.runs.drop_last() =~= e.runs);
            assert(d.pending =~= seq![entry]);
            assert(all_entries(d.runs) =~= before);
            assert(before + seq![entry] =~= entries);
            assert(d.pending.drop_last() =~= Seq::empty());
            assert(ticks_among(d.pending.drop_last()) == 0);
            assert forall|i: int| 0 <= i < n + 1 implies #[trigger] is_full_run(
                start_slot,
                num_ticks_in_start_slot,
                start_index,
                ticks_per_slot,
                parent,
                d.runs,
                i,
            ) by {
                if i < n {
                    assert(is_full_run(
                        start_slot,
                        num_ticks_in_start_slot,
                        start_index,
                        ticks_per_slot,
                        parent,
                        e.runs,
                        i,
                    ));
                    assert(d.runs[i] == e.runs[i]);
                } else {
                    assert(d.runs[i] == run);
                }
            }
            assert(n < entries.len());
        } else {
            assert(d.runs == e.runs);
            assert(d.pending.drop_last() =~= e.pending);
            assert(all_entries(d.runs) + d.pending =~= (all_entries(e.runs) + e.pending).push(
                entry,
            ));
            assert(before.push(entry) =~= entries);
        }
    }
}

/// Entries are divided into slots without losing or moving any: the entries of the slots, one
/// after the other, are all entries. The slots follow each other, and each builds on the one
/// before it. Every slot but the last is full, and ends with the last of the ticks that it takes.
/// The last slot takes the rest, with no more ticks than it takes, and is full where that is
/// asked for.
pub proof fn law_division_keeps_all_entries(
    start_slot: Slot,
    num_ticks_in_start_slot: u64,
    start_index: u32,
    ticks_per_slot: u64,
    parent: Option<u64>,
    is_full_slot: bool,
    entries: Seq<EntryView>,
)
    requires
        can_divide(
            start_slot,
            num_ticks_in_start_slot,
            ticks_per_slot,
            parent,
            entries.len() as int,
        ),
    ensures
        ({
            let runs = divided(
                start_slot,
                num_ticks_in_start_slot,
                start_index,
                ticks_per_slot,
                parent,
                is_full_slot,
                entries,
            );
            let last = runs.len() - 1;
            &&& all_entries(runs) == entries
            &&& runs.len() == 0 <==> entries.len() == 0
            &&& forall|i: int|
                0 <= i < last ==> #[trigger] is_full_run(
                    start_slot,
                    num_ticks_in_start_slot,
                    start_index,
                    ticks_per_slot,
                    parent,
                    runs,
                    i,
                )
            &&& runs.len() > 0 ==> {
                &&& slot_follows(
                    start_slot,
                    parent,
                    last,
                    runs[last].slot,
                    runs[last].parent_slot,
                )
                &&& runs[last].start_index == 0
                &&& runs[last].is_full_slot == is_full_slot
                &&& runs[last].entries.len() > 0
                &&& ticks_among(runs[last].entries) <= ticks_to_take(
                    start_slot,
                    num_ticks_in_start_slot,
                    ticks_per_slot,
                    parent,
                    last,
                )
            }
        }),
{
    let parent_slot = parent_of_first(start_slot, parent);
    let spanned = if start_slot > parent_slot {
        start_slot - parent_slot
    } else {
        1int
    };
    assert(ticks_per_slot > 0) by {
        if ticks_per_slot == 0 {
            assert(spanned * ticks_per_slot == 0) by (nonlinear_arith)
                requires
                    ticks_per_slot == 0,
            ;
        }
    }
    lemma_midway(
        start_slot,
        num_ticks_in_start_slot,
        start_index,
        ticks_per_slot,
        parent,
        entries,
    );
    let d = division(
        division_start(start_slot, num_ticks_in_start_slot, ticks_per_slot, parent),
        entries,
        start_index,
        ticks_per_slot,
    );
    let runs = divided(
        start_slot,
        num_ticks_in_start_slot,
        start_index,
        ticks_per_slot,
        parent,
        is_full_slot,
        entries,
    );
    if entries.len() > 0 {
        assert(runs.drop_last() =~= d.runs);
        assert forall|i: int| 0 <= i < d.runs.len() implies #[trigger] is_full_run(
            start_slot,
            num_ticks_in_start_slot,
            start_index,
            ticks_per_slot,
            parent,
            runs,
            i,
        ) by {
            assert(is_full_run(
                start_slot,
                num_ticks_in_start_slot,
                start_index,
                ticks_per_slot,
                parent,
                d.runs,
                i,
            ));
            assert(runs[i] == d.runs[i]);
        }
    } else {
        assert(d.pending =~= Seq::empty());
        assert(d.runs =~= Seq::empty());
    }
}

/// The flags of a shred note its tick, that it ends a run, and that it ends its slot, each for
/// itself.
proof fn lemma_flags_noted(tick: u8, complete: bool, last: bool)
    requires
        last ==> complete,
    ensures
        ({
            let flags = data_flags(tick, complete, last);
            &&& (flags & 0x40 == 0x40) == complete
            &&& (flags & 0x80 == 0x80) == last
            &&& flags & 0x3f == if tick < 0x3f {
                tick
            } else {
                0x3f
            }
        }),
{
    let t = if tick < 0x3f {
        tick
    } else {
        0x3f
    };
    assert(t <= 0x3fu8 ==> (t & 0x3fu8 == t && t & 0x40u8 != 0x40u8 && t & 0x80u8 != 0x80u8 && (t
        | 0x40u8) & 0x3fu8 == t && (t | 0x40u8) & 0x40u8 == 0x40u8 && (t | 0x40u8) & 0x80u8 != 0x80u8
        && ((t | 0x40u8) | 0x80u8) & 0x3fu8 == t && ((t | 0x40u8) | 0x80u8) & 0x40u8 == 0x40u8 && ((t
        | 0x40u8) | 0x80u8) & 0x80u8 == 0x80u8)) by (bit_vector);
}

/// The shreds that bytes are cut into are numbered from the start index on. Each is of the
/// shredder's slot, parent and version, and notes the tick. Each belongs to the erasure set of the
/// 32 shreds that it is one of. Only the last ends a run, and it alone ends the slot, where that
/// is asked for. All but the last are filled, and together they carry the bytes.
pub proof fn law_shreds_are_numbered(
    shredder: Shredder,
    bytes: Seq<u8>,
    is_last_in_slot: bool,
    start: u32,
)
    requires
        shredder.valid(),
        bytes.len() > 0,
        start + num_data_shreds(bytes.len() as int) <= u32::MAX,
    ensures
        ({
            let shreds = shredder.shreds_of(bytes, is_last_in_slot, start);
            &&& shreds.len() > 0
            &&& joined_data(shreds) == bytes
            &&& forall|i: int|
                0 <= i < shreds.len() ==> {
                    let shred = #[trigger] shreds[i];
                    let is_last = i == shreds.len() - 1;
                    &&& shred.common_header.shred_type == ShredType::Data
                    &&& shred.common_header.slot == shredder.slot
                    &&& shred.common_header.index == start + i
                    &&& shred.common_header.version == shredder.version
                    &&& shred.common_header.fec_set_index == start + 32 * (i / 32)
                    &&& shred.common_header.slot - shred.data_header.parent_offset
                        == shredder.parent_slot
                    &&& (shred.data_header.flags & 0x40 == 0x40) == is_last
                    &&& (shred.data_header.flags & 0x80 == 0x80) == (is_last && is_last_in_slot)
                    &&& shred.data_header.flags & 0x3f == if shredder.reference_tick < 0x3f {
                        shredder.reference_tick
                    } else {
                        0x3f
                    }
                    &&& 0 < shred.data().len() <= SIZE_OF_DATA_SHRED_PAYLOAD
                    &&& !is_last ==> shred.data().len() == SIZE_OF_DATA_SHRED_PAYLOAD
                    &&& parse_shred(shred.payload) == Some(shred)
                }
        }),
{
    let shreds = shredder.shreds_of(bytes, is_last_in_slot, start);
    let n = num_data_shreds(bytes.len() as int);
    law_shreds_join_to_bytes(shredder, bytes, is_last_in_slot, start);
    assert(n > 0);
    assert forall|i: int| 0 <= i < shreds.len() implies {
        let shred = #[trigger] shreds[i];
        let is_last = i == shreds.len() - 1;
        &&& shred.common_header.shred_type == ShredType::Data
        &&& shred.common_header.slot == shredder.slot
        &&& shred.common_header.index == start + i
        &&& shred.common_header.version == shredder.version
        &&& shred.common_header.fec_set_index == start + 32 * (i / 32)
        &&& shred.common_header.slot - shred.data_header.parent_offset == shredder.parent_slot
        &&& (shred.data_header.flags & 0x40 == 0x40) == is_last
        &&& (shred.data_header.flags & 0x80 == 0x80) == (is_last && is_last_in_slot)
        &&& shred.data_header.flags & 0x3f == if shredder.reference_tick < 0x3f {
            shredder.reference_tick
        } else {
            0x3f
        }
        &&& 0 < shred.data().len() <= SIZE_OF_DATA_SHRED_PAYLOAD
        &&& !is_last ==> shred.data().len() == SIZE_OF_DATA_SHRED_PAYLOAD
        &&& parse_shred(shred.payload) == Some(shred)
    } by {
        lemma_shred_reads_back(shredder, bytes, is_last_in_slot, start, i);
        lemma_flags_noted(
            shredder.reference_tick,
            i == n - 1,
            i == n - 1 && is_last_in_slot,
        );
        assert(shreds[i] == shredder.shred_at(bytes, is_last_in_slot, start, n, i));
    }
    if joined_data(shreds).len() == 0 {
        lemma_first_carries(shreds);
    }
}

/// Shreds of which the last carries something carry something together.
proof fn lemma_first_carries(shreds: Seq<ShredView>)
    requires
        shreds.len() > 0,
        shreds[shreds.len() - 1].data().len() > 0,
    ensures
        joined_data(shreds).len() > 0,
{
    assert(shreds.last() == shreds[shreds.len() - 1]);
}

/// The data shreds of some slots are those of each slot, in the order of the slots: each slot's
/// shreds carry its entries, encoded, and are of its slot and parent, numbered from its start
/// index on. The last one ends the slot where the slot is full.
pub proof fn law_shreds_of_slots(runs: Seq<SlotRunView>, version: u16)
    requires
        runs_follow(runs),
        runs_data(runs, version) is Some,
    ensures
        ({
            let data = runs_data(runs, version)->0;
            &&& data.len() == runs.len()
            &&& forall|i: int|
                0 <= i < runs.len() ==> #[trigger] carries_run(data, runs, version, i)
        }),
    decreases runs.len(),
{
    let data = runs_data(runs, version)->0;
    if runs.len() > 0 {
        let before = runs.drop_last();
        let last = runs.len() - 1;
        let run = runs.last();
        assert forall|i: int| 0 <= i < before.len() implies can_follow(
            (#[trigger] before[i]).slot,
            before[i].parent_slot,
        ) by {
            assert(before[i] == runs[i]);
        }
        law_shreds_of_slots(before, version);
        let earlier = runs_data(before, version)->0;
        let shredder = Shredder {
            slot: run.slot,
            parent_slot: run.parent_slot,
            reference_tick: 0,
            version,
        };
        assert(can_follow(runs[last].slot, runs[last].parent_slot));
        let bytes = bincode_bytes(encoded_entries(run.entries))->0;
        if bytes.len() > 0 {
            law_shreds_are_numbered(shredder, bytes, run.is_full_slot, run.start_index);
        }
        assert forall|i: int| 0 <= i < runs.len() implies #[trigger] carries_run(
            data,
            runs,
            version,
            i,
        ) by {
            if i < last {
                assert(carries_run(earlier, before, version, i));
                assert(data[i] == earlier[i] && before[i] == runs[i]);
            } else {
                assert(data[i] == shredder.shreds_of(bytes, run.is_full_slot, run.start_index));
            }
        }
    }
}

/// The shreds of one of some slots carry its entries, encoded.
pub open spec fn carries_run(
    data: Seq<Seq<ShredView>>,
    runs: Seq<SlotRunView>,
    version: u16,
    i: int,
) -> bool {
    let bytes = bincode_bytes(encoded_entries(runs[i].entries));
    &&& bytes is Some
    &&& bytes->0.len() > 0 ==> {
        &&& data[i].len() > 0
        &&& joined_data(data[i]) == bytes->0
        &&& data[i][data[i].len() - 1].data_header.flags & 0x40 == 0x40
        &&& (data[i][data[i].len() - 1].data_header.flags & 0x80 == 0x80) == runs[i].is_full_slot
        &&& forall|x: int|
            0 <= x < data[i].len() ==> {
                let shred = #[trigger] data[i][x];
                &&& shred.common_header.shred_type == ShredType::Data
                &&& shred.common_header.slot == runs[i].slot
                &&& shred.common_header.index == runs[i].start_index + x
                &&& shred.common_header.version == version
                &&& shred.common_header.slot - shred.data_header.parent_offset
                    == runs[i].parent_slot
            }
    }
}

/// The shreds of some slots are, slot after slot, the data shreds of the slot and then its coding
/// shreds; and as many are counted as there are data shreds in all.
pub proof fn law_coding_shreds_follow_their_slot(
    data: Seq<Seq<ShredView>>,
    codes: Seq<Seq<ShredView>>,
)
    requires
        data.len() == codes.len(),
    ensures
        with_codes(data, codes) == Seq::new(
            data.len(),
            |j: int| data[j] + codes[j],
        ).flatten(),
        total_len(data) == data.flatten().len(),
    decreases data.len(),
{
    let both = Seq::new(data.len(), |j: int| data[j] + codes[j]);
    if data.len() > 0 {
        let n = data.len() - 1;
        let before = data.drop_last();
        let codes_before = codes.drop_last();
        law_coding_shreds_follow_their_slot(before, codes_before);
        lemma_with_codes_same(before, codes_before, codes);
        let both_before = Seq::new(before.len(), |j: int| before[j] + codes_before[j]);
        assert(both =~= both_before.push(data[n] + codes[n]));
        both_before.lemma_flatten_push(data[n] + codes[n]);
        assert(data =~= before.push(data[n]));
        before.lemma_flatten_push(data[n]);
        assert(with_codes(data, codes) =~= both.flatten());
    } else {
        assert(both =~= Seq::empty());
        assert(data =~= Seq::empty());
    }
}

proof fn lemma_with_codes_same(
    data: Seq<Seq<ShredView>>,
    a: Seq<Seq<ShredView>>,
    b: Seq<Seq<ShredView>>,
)
    requires
        data.len() <= a.len(),
        data.len() <= b.len(),
        forall|j: int| 0 <= j < data.len() ==> #[trigger] a[j] == b[j],
    ensures
        with_codes(data, a) == with_codes(data, b),
    decreases data.len(),
{
    if data.len() > 0 {
        lemma_with_codes_same(data.drop_last(), a, b);
        assert(a[data.len() - 1] == b[data.len() - 1]);
    }
}

} // verus!
