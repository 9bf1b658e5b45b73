//! Writing a stream of entries: dividing it into slots, and shredding these.

use vstd::prelude::*;
use crate::batch::{all_insertable, batch_start, ledger_sound, lemma_insertable_allowed, Progress};
use crate::blockstore::{Blockstore, BlockstoreView};
use crate::column::{Duplicate, SlotIndex};
use crate::consistency::{consistent, ends_marked, stored_in};
use crate::entries::decoded_entries;
use crate::fixtures::{
    all_storable, can_follow, entries_to_test_shreds, lemma_shreds_storable, lemma_storable_allowed,
    test_shreds,
};
use crate::insert::{batch_inserted, unrepaired};
use crate::insertion::insertable;
use crate::laws::{law_other_writes_keep_ledger, law_set_roots};
use crate::metrics::BlockstoreInsertionMetrics;
use crate::reading_laws::{
    batch_made, batches_made, came_in, has_index, law_empty_slot_can_take_in,
    law_inserted_entries_read_back, law_more_shreds_taken_in, Batch,
};
use crate::records::{entry_views, BlockstoreError, Entry, EntryView};
use crate::roots::rooted;
use crate::shred::{shred_views, Shred, ShredView};
use crate::shredder::{num_data_shreds, too_long, Shredder};
use crate::slot_entries::{cleaned_up, dead, slot_entries};
use crate::slot_runs::{
    holds_runs, law_slot_reads_back, lemma_run_shreds_of_slot, lemma_single_run, run_shreds_len,
    runs_of, EntryRun,
};
use crate::slot_update::elapsed_at_tick;
use crate::types::{Blockhash, Slot};

verus! {

/// The entries of one slot.
pub struct SlotRun {
    pub slot: Slot,
    pub parent_slot: Slot,
    /// The index of the first shred.
    pub start_index: u32,
    /// Whether the last entry ends the slot.
    pub is_full_slot: bool,
    pub entries: Vec<Entry>,
}

/// The model of a `SlotRun`.
#[verifier::ext_equal]
pub struct SlotRunView {
    pub slot: Slot,
    pub parent_slot: Slot,
    pub start_index: u32,
    pub is_full_slot: bool,
    pub entries: Seq<EntryView>,
}

impl View for SlotRun {
    type V = SlotRunView;

    open spec fn view(&self) -> SlotRunView {
        SlotRunView {
            slot: self.slot,
            parent_slot: self.parent_slot,
            start_index: self.start_index,
            is_full_slot: self.is_full_slot,
            entries: entry_views(self.entries@),
        }
    }
}

/// The models of the runs in a vector.
pub open spec fn run_views(runs: Seq<SlotRun>) -> Seq<SlotRunView> {
    Seq::new(runs.len(), |i: int| runs[i]@)
}

/// The state of a division into slots.
#[verifier::ext_equal]
pub struct Division {
    pub slot: Slot,
    pub parent_slot: Slot,
    /// How many ticks the slot still takes.
    pub remaining_ticks: int,
    pub pending: Seq<EntryView>,
    pub runs: Seq<SlotRunView>,
}

/// The parent of the first slot: the one given, or the slot before.
pub open spec fn first_parent(start_slot: Slot, parent: Option<u64>) -> Slot {
    match parent {
        Some(p) => p,
        None => if start_slot == 0 {
            0
        } else {
            (start_slot - 1) as u64
        },
    }
}

/// How many slots the first slot stands for: those from its parent on. Slot 0 stands for one.
pub open spec fn slots_spanned(start_slot: Slot, parent_slot: Slot) -> int {
    if start_slot - parent_slot < 1 {
        1
    } else {
        start_slot - parent_slot
    }
}

/// The start of a division.
pub open spec fn division_start(
    start_slot: Slot,
    num_ticks_in_start_slot: u64,
    ticks_per_slot: u64,
    parent: Option<u64>,
) -> Division {
    let parent_slot = first_parent(start_slot, parent);
    Division {
        slot: start_slot,
        parent_slot,
        remaining_ticks: slots_spanned(start_slot, parent_slot) * ticks_per_slot
            - num_ticks_in_start_slot,
        pending: Seq::empty(),
        runs: Seq::empty(),
    }
}

/// The next entry: where the slot takes no more ticks, a new slot starts with it.
pub open spec fn division_step(
    d: Division,
    entry: EntryView,
    start_index: u32,
    ticks_per_slot: u64,
) -> Division {
    let d1 = if d.remaining_ticks == 0 {
        Division {
            slot: (d.slot + 1) as u64,
            parent_slot: d.slot,
            remaining_ticks: ticks_per_slot as int,
            pending: Seq::empty(),
            runs: d.runs.push(
                SlotRunView {
                    slot: d.slot,
                    parent_slot: d.parent_slot,
                    start_index: if d.runs.len() == 0 {
                        start_index
                    } else {
                        0
                    },
                    is_full_slot: true,
                    entries: d.pending,
                },
            ),
        }
    } else {
        d
    };
    Division {
        remaining_ticks: if entry.transactions.len() == 0 {
            d1.remaining_ticks - 1
        } else {
            d1.remaining_ticks
        },
        pending: d1.pending.push(entry),
        ..d1
    }
}

/// The division of some entries.
pub open spec fn division(
    d: Division,
    entries: Seq<EntryView>,
    start_index: u32,
    ticks_per_slot: u64,
) -> Division
    decreases entries.len(),
{
    if entries.len() == 0 {
        d
    } else {
        division_step(
            division(d, entries.drop_last(), start_index, ticks_per_slot),
            entries.last(),
            start_index,
            ticks_per_slot,
        )
    }
}

/// The slots that entries are divided into.
pub open spec fn divided(
    start_slot: Slot,
    num_ticks_in_start_slot: u64,
    start_index: u32,
    ticks_per_slot: u64,
    parent: Option<u64>,
    is_full_slot: bool,
    entries: Seq<EntryView>,
) -> Seq<SlotRunView> {
    let d = division(
        division_start(start_slot, num_ticks_in_start_slot, ticks_per_slot, parent),
        entries,
        start_index,
        ticks_per_slot,
    );
    if d.pending.len() == 0 {
        d.runs
    } else {
        d.runs.push(
            SlotRunView {
                slot: d.slot,
                parent_slot: d.parent_slot,
                start_index: 0,
                is_full_slot,
                entries: d.pending,
            },
        )
    }
}

/// The first slot can be started: it is not below its parent, it does not yet have all of its
/// ticks, and no number overflows.
pub open spec fn can_divide(
    start_slot: Slot,
    num_ticks_in_start_slot: u64,
    ticks_per_slot: u64,
    parent: Option<u64>,
    num_entries: int,
) -> bool {
    let parent_slot = first_parent(start_slot, parent);
    &&& parent_slot <= start_slot
    &&& slots_spanned(start_slot, parent_slot) * ticks_per_slot <= u64::MAX
    &&& num_ticks_in_start_slot < slots_spanned(start_slot, parent_slot) * ticks_per_slot
    &&& start_slot + num_entries <= u64::MAX
}

/// The shreds of one slot.
pub open spec fn slot_run_shreds(run: SlotRunView, version: u16) -> Option<Seq<ShredView>> {
    (Shredder { slot: run.slot, parent_slot: run.parent_slot, reference_tick: 0, version }).shredded(
        run.entries,
        run.is_full_slot,
        run.start_index,
    )
}

/// The data shreds of some slots, slot by slot. `None` where the entries of one cannot be
/// shredded.
pub open spec fn runs_data(runs: Seq<SlotRunView>, version: u16) -> Option<Seq<Seq<ShredView>>>
    decreases runs.len(),
{
    if runs.len() == 0 {
        Some(Seq::empty())
    } else {
        match runs_data(runs.drop_last(), version) {
            None => None,
            Some(earlier) => match slot_run_shreds(runs.last(), version) {
                None => None,
                Some(shreds) => Some(earlier.push(shreds)),
            },
        }
    }
}

/// One of some slots takes more shreds than there are indexes.
pub open spec fn some_too_long(runs: Seq<SlotRunView>) -> bool {
    exists|i: int|
        0 <= i < runs.len() && too_long((#[trigger] runs[i]).entries, runs[i].start_index)
}

/// How many shreds there are, slot by slot.
pub open spec fn total_len(slots: Seq<Seq<ShredView>>) -> nat
    decreases slots.len(),
{
    if slots.len() == 0 {
        0
    } else {
        total_len(slots.drop_last()) + slots.last().len()
    }
}

/// The data shreds of some slots, those of each slot followed by its coding shreds.
pub open spec fn with_codes(data: Seq<Seq<ShredView>>, codes: Seq<Seq<ShredView>>) -> Seq<
    ShredView,
>
    decreases data.len(),
{
    if data.len() == 0 {
        Seq::empty()
    } else {
        with_codes(data.drop_last(), codes) + data.last() + codes[data.len() - 1]
    }
}

/// The coding shreds that `code` makes of the data shreds of a slot. Without `code` there are
/// none.
pub open spec fn code_made<F: Fn(Vec<Shred>) -> Vec<Shred>>(
    code: Option<F>,
    data: Seq<ShredView>,
    made: Seq<ShredView>,
) -> bool {
    match code {
        None => made == Seq::<ShredView>::empty(),
        Some(f) => exists|d: Vec<Shred>, c: Vec<Shred>| #[trigger]
            call_ensures(f, (d,), c) && shred_views(d@) == data && shred_views(c@) == made,
    }
}

/// The coding shreds of some slots, slot by slot, are those that `code` makes.
pub open spec fn codes_made<F: Fn(Vec<Shred>) -> Vec<Shred>>(
    code: Option<F>,
    data: Seq<Seq<ShredView>>,
    codes: Seq<Seq<ShredView>>,
) -> bool {
    &&& codes.len() == data.len()
    &&& forall|j: int|
        0 <= j < data.len() ==> code_made(code, #[trigger] data[j], codes[j])
}

/// The data shreds of some slots, those of each slot followed by the coding shreds that `code`
/// makes of them.
pub open spec fn coded<F: Fn(Vec<Shred>) -> Vec<Shred>>(
    code: Option<F>,
    data: Seq<Seq<ShredView>>,
    all: Seq<ShredView>,
) -> bool {
    exists|codes: Seq<Seq<ShredView>>| #[trigger]
        codes_made(code, data, codes) && all == with_codes(data, codes)
}

/// Every shred is a coding shred.
pub open spec fn all_code(shreds: Seq<ShredView>) -> bool {
    forall|i: int| 0 <= i < shreds.len() ==> (#[trigger] shreds[i]).is_code()
}

/// Every slot can follow its parent.
pub open spec fn runs_follow(runs: Seq<SlotRunView>) -> bool {
    forall|i: int| 0 <= i < runs.len() ==> can_follow((#[trigger] runs[i]).slot, runs[i].parent_slot)
}

proof fn lemma_division(d: Division, entries: Seq<EntryView>, start_index: u32, ticks: u64)
    requires
        d.remaining_ticks > 0,
        ticks > 0,
        d.slot + entries.len() <= u64::MAX,
    ensures
        ({
            let e = division(d, entries, start_index, ticks);
            &&& 0 <= e.remaining_ticks <= if d.remaining_ticks < ticks {
                ticks as int
            } else {
                d.remaining_ticks
            }
            &&& d.slot <= e.slot <= d.slot + entries.len()
            &&& d.runs.len() <= e.runs.len()
            &&& can_follow(d.slot, d.parent_slot) ==> can_follow(e.slot, e.parent_slot)
            &&& runs_follow(d.runs) && can_follow(d.slot, d.parent_slot) ==> runs_follow(e.runs)
        }),
    decreases entries.len(),
{
    if entries.len() > 0 {
        lemma_division(d, entries.drop_last(), start_index, ticks);
    }
}

proof fn lemma_runs_none(runs: Seq<SlotRunView>, version: u16, n: int)
    requires
        0 <= n <= runs.len(),
        runs_data(runs.take(n), version) is None,
    ensures
        runs_data(runs, version) is None,
    decreases runs.len() - n,
{
    if n == runs.len() {
        assert(runs.take(n) =~= runs);
    } else {
        assert(runs.take(n + 1).drop_last() =~= runs.take(n));
        lemma_runs_none(runs, version, n + 1);
    }
}

/// Divides a stream of entries into slots of `ticks_per_slot` ticks. The first slot has
/// `num_ticks_in_start_slot` ticks already.
pub fn divide_entries(
    start_slot: Slot,
    num_ticks_in_start_slot: u64,
    start_index: u32,
    ticks_per_slot: u64,
    parent: Option<u64>,
    is_full_slot: bool,
    entries: Vec<Entry>,
) -> (result: Vec<SlotRun>)
    requires
        can_divide(
            start_slot,
            num_ticks_in_start_slot,
            ticks_per_slot,
            parent,
            entries@.len() as int,
        ),
    ensures
        run_views(result@) == divided(
            start_slot,
            num_ticks_in_start_slot,
            start_index,
            ticks_per_slot,
            parent,
            is_full_slot,
            entry_views(entries@),
        ),
        can_follow(start_slot, first_parent(start_slot, parent)) ==> runs_follow(
            run_views(result@),
        ),
{
    let mut parent_slot: u64 = match parent {
        Some(p) => p,
        None => if start_slot == 0 {
            0
        } else {
            start_slot - 1
        },
    };
    let spanned: u64 = if start_slot - parent_slot < 1 {
        1
    } else {
        start_slot - parent_slot
    };
    let mut remaining_ticks: u64 = spanned * ticks_per_slot - num_ticks_in_start_slot;
    let mut current_slot: u64 = start_slot;
    let mut runs: Vec<SlotRun> = Vec::new();
    let mut pending: Vec<Entry> = Vec::new();
    let ghost d0 = division_start(start_slot, num_ticks_in_start_slot, ticks_per_slot, parent);
    let ghost views = entry_views(entries@);
    proof {
        assert(ticks_per_slot > 0) by (nonlinear_arith)
            requires
                num_ticks_in_start_slot < spanned * ticks_per_slot,
                num_ticks_in_start_slot >= 0,
        ;
        assert(views.take(0) =~= Seq::empty());
        assert(run_views(runs@) =~= Seq::empty());
        assert(entry_views(pending@) =~= Seq::empty());
    }
    let n: usize = entries.len();
    let mut rest = entries;
    let mut i: usize = 0;
    while i < n
        invariant
            0 <= i <= n,
            n == entries@.len(),
            rest@ == entries@,
            views == entry_views(entries@),
            d0 == division_start(start_slot, num_ticks_in_start_slot, ticks_per_slot, parent),
            d0.remaining_ticks > 0,
            ticks_per_slot > 0,
            d0.slot + n <= u64::MAX,
            division(d0, views.take(i as int), start_index, ticks_per_slot) == (Division {
                slot: current_slot,
                parent_slot,
                remaining_ticks: remaining_ticks as int,
                pending: entry_views(pending@),
                runs: run_views(runs@),
            }),
        decreases n - i,
    {
        let entry = rest[i].duplicate();
        let ghost view = entry@;
        proof {
            assert(view == views[i as int]);
            assert(views.take(i + 1).drop_last() =~= views.take(i as int));
            assert(views.take(i + 1).last() == view);
            lemma_division(d0, views.take(i as int), start_index, ticks_per_slot);
        }
        if remaining_ticks == 0 {
            let run_start: u32 = if runs.len() == 0 {
                start_index
            } else {
                0
            };
            let mut run_entries: Vec<Entry> = Vec::new();
            std::mem::swap(&mut pending, &mut run_entries);
            let ghost so_far = run_views(runs@);
            let run = SlotRun {
                slot: current_slot,
                parent_slot,
                start_index: run_start,
                is_full_slot: true,
                entries: run_entries,
            };
            runs.push(run);
            assert(run_views(runs@) =~= so_far.push(run@));
            assert(entry_views(pending@) =~= Seq::empty());
            parent_slot = current_slot;
            current_slot = current_slot + 1;
            remaining_ticks = ticks_per_slot;
        }
        if entry.is_tick() {
            remaining_ticks = remaining_ticks - 1;
        }
        let ghost so_far = entry_views(pending@);
        pending.push(entry);
        assert(entry_views(pending@) =~= so_far.push(view));
        i += 1;
    }
    assert(views.take(n as int) =~= views);
    proof {
        lemma_division(d0, views, start_index, ticks_per_slot);
    }
    if pending.len() > 0 {
        let ghost so_far = run_views(runs@);
        let run = SlotRun {
            slot: current_slot,
            parent_slot,
            start_index: 0,
            is_full_slot,
            entries: pending,
        };
        runs.push(run);
        assert(run_views(runs@) =~= so_far.push(run@));
    }
    runs
}

/// Adds the data shreds of a slot, and then its coding shreds.
proof fn lemma_with_codes_step(
    data: Seq<Seq<ShredView>>,
    codes: Seq<Seq<ShredView>>,
    more: Seq<Seq<ShredView>>,
    n: int,
)
    requires
        0 <= n <= data.len(),
        n <= codes.len() <= more.len(),
        more.take(codes.len() as int) == codes,
    ensures
        with_codes(data.take(n), more) == with_codes(data.take(n), codes),
    decreases n,
{
    if n > 0 {
        assert(data.take(n).drop_last() =~= data.take(n - 1));
        lemma_with_codes_step(data, codes, more, n - 1);
        assert(more[n - 1] == more.take(codes.len() as int)[n - 1]);
    }
}

/// Cuts some slots into data shreds, and adds to those of each slot the coding shreds that
/// `code` makes of them. Returns all shreds, and how many of them are data shreds.
fn shred_runs<F: Fn(Vec<Shred>) -> Vec<Shred>>(
    runs: &Vec<SlotRun>,
    version: u16,
    code: &Option<F>,
) -> (result: Option<(Vec<Shred>, usize)>)
    requires
        runs_follow(run_views(runs@)),
        code is Some ==> forall|d: Vec<Shred>| call_requires(code->0, (d,)),
        code is Some ==> forall|d: Vec<Shred>, c: Vec<Shred>| #[trigger]
            call_ensures(code->0, (d,), c) ==> all_code(shred_views(c@)),
    ensures
        match runs_data(run_views(runs@), version) {
            None => result is None,
            Some(data) => {
                &&& result is Some
                &&& (result->0).1 == total_len(data) as usize
                &&& all_insertable(shred_views((result->0).0@), false, 0)
                &&& code is None ==> all_storable(shred_views((result->0).0@))
                &&& coded(*code, data, shred_views((result->0).0@))
            },
        },
        result is None ==> some_too_long(run_views(runs@)),
{
    let mut shreds: Vec<Shred> = Vec::new();
    let ghost views = run_views(runs@);
    let ghost mut data: Seq<Seq<ShredView>> = Seq::empty();
    let ghost mut codes: Seq<Seq<ShredView>> = Seq::empty();
    let mut num_data: usize = 0;
    let mut i: usize = 0;
    assert(views.take(0) =~= Seq::empty());
    assert(shred_views(shreds@) =~= Seq::empty());
    while i < runs.len()
        invariant
            0 <= i <= runs@.len(),
            views == run_views(runs@),
            runs_follow(views),
            code is Some ==> forall|d: Vec<Shred>| call_requires(code->0, (d,)),
            code is Some ==> forall|d: Vec<Shred>, c: Vec<Shred>| #[trigger]
                call_ensures(code->0, (d,), c) ==> all_code(shred_views(c@)),
            runs_data(views.take(i as int), version) == Some(data),
            codes_made(*code, data, codes),
            shred_views(shreds@) == with_codes(data, codes),
            num_data == total_len(data),
            num_data <= shreds@.len(),
            all_insertable(shred_views(shreds@), false, 0),
            code is None ==> all_storable(shred_views(shreds@)),
        decreases runs@.len() - i,
    {
        let run = &runs[i];
        proof {
            assert(views[i as int] == run@);
            assert(can_follow(views[i as int].slot, views[i as int].parent_slot));
            assert(views.take(i + 1).drop_last() =~= views.take(i as int));
            assert(views.take(i + 1).last() == run@);
        }
        let shredder = Shredder {
            slot: run.slot,
            parent_slot: run.parent_slot,
            reference_tick: 0,
            version,
        };
        match shredder.entries_to_data_shreds(&run.entries, run.is_full_slot, run.start_index) {
            None => {
                proof {
                    lemma_runs_none(views, version, i + 1);
                    assert(too_long(views[i as int].entries, views[i as int].start_index));
                }
                return None;
            },
            Some(slot_shreds) => {
                let ghost own = shred_views(slot_shreds@);
                proof {
                    let bytes = choose|bytes: Seq<u8>|
                        own == #[trigger] shredder.shreds_of(
                            bytes,
                            run.is_full_slot,
                            run.start_index,
                        ) && run.start_index + num_data_shreds(bytes.len() as int) <= u32::MAX;
                    lemma_shreds_storable(
                        shredder,
                        bytes,
                        run.is_full_slot,
                        run.start_index,
                    );
                }
                let made: Vec<Shred> = match code {
                    None => Vec::new(),
                    Some(f) => {
                        let copy = duplicate_shreds(&slot_shreds);
                        f(copy)
                    },
                };
                let ghost made_views = shred_views(made@);
                let ghost so_far = shred_views(shreds@);
                proof {
                    assert(code is None ==> made_views =~= Seq::empty());
                    assert(code_made(*code, own, made_views));
                }
                let count: usize = slot_shreds.len();
                append_all(&mut shreds, slot_shreds);
                append_all(&mut shreds, made);
                let total: usize = shreds.len();
                assert(num_data + count <= total);
                num_data = num_data + count;
                proof {
                    let more = codes.push(made_views);
                    let longer = data.push(own);
                    assert(more.take(codes.len() as int) =~= codes);
                    assert(data.take(data.len() as int) =~= data);
                    lemma_with_codes_step(data, codes, more, data.len() as int);
                    assert(longer.drop_last() =~= data);
                    assert(shred_views(shreds@) =~= with_codes(longer, more));
                    assert forall|j: int| 0 <= j < longer.len() implies code_made(
                        *code,
                        #[trigger] longer[j],
                        more[j],
                    ) by {
                        if j < data.len() {
                            assert(code_made(*code, data[j], codes[j]));
                        }
                    }
                    let all = shred_views(shreds@);
                    assert forall|j: int| 0 <= j < all.len() implies insertable(
                        #[trigger] all[j],
                        false,
                        0,
                    ) by {
                        if j < so_far.len() {
                            assert(all[j] == so_far[j]);
                        } else if j < so_far.len() + own.len() {
                            assert(all[j] == own[j - so_far.len()]);
                        } else {
                            let c = made_views[j - so_far.len() - own.len()];
                            assert(all[j] == c);
                            assert(all_code(made_views));
                            assert(c.is_code());
                        }
                    }
                    if code is None {
                        assert forall|j: int| 0 <= j < all.len() implies (
                        #[trigger] all[j]).is_data() && insertable(all[j], false, 0) by {
                            if j < so_far.len() {
                                assert(all[j] == so_far[j]);
                            } else {
                                assert(all[j] == own[j - so_far.len()]);
                            }
                        }
                    }
                    data = longer;
                    codes = more;
                }
            },
        }
        i += 1;
    }
    assert(views.take(runs@.len() as int) =~= views);
    assert(coded(*code, data, shred_views(shreds@)));
    Some((shreds, num_data))
}

/// Copies of some shreds.
fn duplicate_shreds(shreds: &Vec<Shred>) -> (result: Vec<Shred>)
    ensures
        shred_views(result@) == shred_views(shreds@),
{
    let mut result: Vec<Shred> = Vec::new();
    let mut i: usize = 0;
    while i < shreds.len()
        invariant
            0 <= i <= shreds@.len(),
            result@.len() == i,
            forall|j: int| 0 <= j < i ==> (#[trigger] result@[j])@ == shreds@[j]@,
        decreases shreds@.len() - i,
    {
        result.push(shreds[i].duplicate());
        i += 1;
    }
    assert(shred_views(result@) =~= shred_views(shreds@));
    result
}

/// Adds shreds at the end.
fn append_all(to: &mut Vec<Shred>, from: Vec<Shred>)
    ensures
        shred_views(final(to)@) == shred_views(old(to)@) + shred_views(from@),
        final(to)@.len() == old(to)@.len() + from@.len(),
{
    let mut from = from;
    let ghost added = from@;
    to.append(&mut from);
    assert(shred_views(to@) =~= shred_views(old(to)@) + shred_views(added));
}

/// Slot 0 holds nothing yet and can be written: nothing is known of it, no slot above it is
/// rooted, and it is neither dead nor purged. The ledger is consistent.
pub open spec fn first_slot_is_new(store: BlockstoreView) -> bool {
    &&& consistent(store.ledger)
    &&& ends_marked(store.ledger)
    &&& !store.ledger.meta.contains_key(0)
    &&& store.last_root == 0
    &&& !dead(store.ledger, 0)
    &&& !cleaned_up(store, 0)
}

proof fn lemma_first_slot_rooted(store: BlockstoreView)
    ensures
        rooted(store.with_roots(seq![0]).ledger, 0),
        ledger_sound(store.ledger) ==> ledger_sound(store.with_roots(seq![0]).ledger),
{
    law_set_roots(store, seq![0]);
    law_other_writes_keep_ledger(store.ledger, store.with_roots(seq![0]).ledger);
    assert(seq![0u64][0] == 0);
    assert(seq![0u64].contains(0));
}

/// Slot 0 gives back the entries that it was filled with.
#[verifier::rlimit(40)]
#[verifier::spinoff_prover]
proof fn lemma_first_slot_filled(
    store: BlockstoreView,
    shreds: Seq<ShredView>,
    entries: Seq<EntryView>,
    version: u16,
    now: u64,
    filled: BlockstoreView,
)
    requires
        first_slot_is_new(store),
        ledger_sound(store.ledger),
        test_shreds(entries, 0, 0, true, version) == Some(shreds),
        all_storable(shreds),
        shreds.len() < u32::MAX,
        exists|bytes: Seq<u8>|
            bytes.len() > 0 && decoded_entries(bytes) == Some(entries) && shreds
                == #[trigger] (Shredder {
                slot: 0,
                parent_slot: 0,
                reference_tick: 0,
                version,
            }).shreds_of(bytes, true, 0),
        batch_made(store, unrepaired_batch(shreds, now), filled),
    ensures
        holds_entries(filled.with_roots(seq![0]), entries),
        consistent(filled.with_roots(seq![0]).ledger),
        ends_marked(filled.with_roots(seq![0]).ledger),
{
    let after = filled.with_roots(seq![0]);
    law_set_roots(filled, seq![0]);
    let shredder = Shredder { slot: 0, parent_slot: 0, reference_tick: 0, version };
    let bytes = choose|bytes: Seq<u8>|
        bytes.len() > 0 && decoded_entries(bytes) == Some(entries) && shreds
            == #[trigger] shredder.shreds_of(bytes, true, 0);
    let run = EntryRun { shredder, bytes, entries, is_last_in_slot: true };
    let runs = seq![run];
    let batch = unrepaired_batch(shreds, now);
    lemma_single_run(run);
    assert(runs_of(0, 0, runs));
    assert forall|i: int| 0 <= i < batch.shreds.len() implies shreds.contains(
        #[trigger] batch.shreds[i],
    ) && batch.now >= elapsed_at_tick(batch.shreds[i].reference_tick()) by {
        assert(insertable(shreds[i], false, 0));
    }
    assert forall|i: u64| !#[trigger] stored_in(store.ledger, 0)(i) by {
        let k = SlotIndex { slot: 0, index: i };
        if store.ledger.data_shreds.contains_key(k) {
            assert(store.ledger.meta.contains_key(k.slot));
        }
    }
    law_empty_slot_can_take_in(store, 0, 0, shreds);
    let stores = seq![store, filled];
    let batches = seq![batch];
    assert(batches_made(stores, batches, shreds));
    lemma_run_shreds_of_slot(0, 0, runs);
    law_more_shreds_taken_in(store, 0, 0, shreds, batch, filled);
    assert forall|i: u64| i < shreds.len() implies stored_in(store.ledger, 0)(i) || #[trigger]
        came_in(batches, i) by {
        assert(shreds[i as int].index() == i);
        assert(has_index(batches[0].shreds, i));
    }
    law_inserted_entries_read_back(0, 0, runs, stores, batches);
    law_other_writes_keep_ledger(filled.ledger, after.ledger);
    assert(runs.take(1) =~= runs);
    assert forall|i: u64| i < run_shreds_len(runs.take(1)) implies #[trigger] stored_in(
        after.ledger,
        0,
    )(i) by {
        assert(came_in(batches, i));
        assert(stored_in(filled.ledger, 0)(i)) by {
            assert(has_index(batches[0].shreds, i)) by {
                assert(shreds[i as int].index() == i);
            }
        }
    }
    assert(holds_runs(after.ledger, 0, runs, 1));
    law_slot_reads_back(after, 0, 0, runs, 1);
}

/// Slot 0 is full, and has these entries.
pub open spec fn holds_entries(store: BlockstoreView, entries: Seq<EntryView>) -> bool {
    &&& slot_entries(store, 0, 0) == Ok::<Seq<EntryView>, BlockstoreError>(entries)
    &&& store.ledger.meta.contains_key(0)
    &&& store.ledger.meta[0].is_full()
}

/// A batch of shreds that were not repaired.
pub open spec fn unrepaired_batch(shreds: Seq<ShredView>, now: u64) -> Batch {
    Batch {
        shreds,
        is_repaired: unrepaired(shreds.len()),
        now,
        metrics: BlockstoreInsertionMetrics::zero(),
        has_completed_slots_senders: false,
    }
}

impl Blockstore {
    /// Divides a stream of entries into slots and inserts their data shreds, those of each slot
    /// followed by the coding shreds that `code` makes of them. Returns how many data shreds
    /// there are, or `None`, and writes nothing, where the entries of a slot take more shreds than
    /// there are indexes.
    pub fn write_entries<F: Fn(Vec<Shred>) -> Vec<Shred>>(
        &mut self,
        start_slot: Slot,
        num_ticks_in_start_slot: u64,
        start_index: u32,
        ticks_per_slot: u64,
        parent: Option<u64>,
        is_full_slot: bool,
        entries: Vec<Entry>,
        version: u16,
        code: Option<F>,
        now: u64,
    ) -> (result: Option<usize>)
        requires
            can_divide(
                start_slot,
                num_ticks_in_start_slot,
                ticks_per_slot,
                parent,
                entries@.len() as int,
            ),
            can_follow(start_slot, first_parent(start_slot, parent)),
            ledger_sound(old(self)@.ledger),
            code is Some ==> forall|d: Vec<Shred>| call_requires(code->0, (d,)),
            code is Some ==> forall|d: Vec<Shred>, c: Vec<Shred>| #[trigger]
                call_ensures(code->0, (d,), c) ==> all_code(shred_views(c@)),
        ensures
            match runs_data(
                divided(
                    start_slot,
                    num_ticks_in_start_slot,
                    start_index,
                    ticks_per_slot,
                    parent,
                    is_full_slot,
                    entry_views(entries@),
                ),
                version,
            ) {
                None => result is None && final(self)@ == old(self)@,
                Some(data) => result == Some(total_len(data) as usize) && exists|
                    shreds: Seq<ShredView>,
                | #[trigger]
                    coded(code, data, shreds) && batch_made(
                        old(self)@,
                        unrepaired_batch(shreds, now),
                        final(self)@,
                    ),
            },
            result is None ==> some_too_long(
                divided(
                    start_slot,
                    num_ticks_in_start_slot,
                    start_index,
                    ticks_per_slot,
                    parent,
                    is_full_slot,
                    entry_views(entries@),
                ),
            ),
            code is None ==> ledger_sound(final(self)@.ledger),
    {
        let runs = divide_entries(
            start_slot,
            num_ticks_in_start_slot,
            start_index,
            ticks_per_slot,
            parent,
            is_full_slot,
            entries,
        );
        match shred_runs(&runs, version, &code) {
            None => None,
            Some((all_shreds, num_data)) => {
                let ghost views = shred_views(all_shreds@);
                proof {
                    assert forall|i: int| 0 <= i < views.len() implies insertable(
                        #[trigger] views[i],
                        false,
                        now,
                    ) by {
                        assert(insertable(views[i], false, 0));
                    }
                    lemma_insertable_allowed(
                        Progress {
                            store: self@,
                            state: batch_start(
                                BlockstoreInsertionMetrics::zero(),
                                views.len() as usize,
                            ),
                        },
                        views,
                        unrepaired(views.len()),
                        false,
                        now,
                    );
                    if code is None {
                        lemma_storable_allowed(self@, views, now);
                    }
                }
                let _ = self.insert_unrepaired(all_shreds, false, now);
                Some(num_data)
            },
        }
    }

    /// Fills slot 0 with entries, of which the last ends the slot, and makes it a root. Returns
    /// the hash of the last entry, which the next slot builds on; or `None`, and writes nothing,
    /// where the entries take more shreds than there are indexes.
    pub fn fill_first_slot(&mut self, entries: &Vec<Entry>, version: u16, now: u64) -> (result:
        Option<Blockhash>)
        requires
            entries@.len() > 0,
            ledger_sound(old(self)@.ledger),
        ensures
            match test_shreds(entry_views(entries@), 0, 0, true, version) {
                None => result is None && final(self)@ == old(self)@,
                Some(shreds) => {
                    &&& result == Some(entries@.last().hash)
                    &&& final(self)@ == batch_inserted(
                        old(self)@,
                        shreds,
                        unrepaired(shreds.len()),
                        false,
                        now,
                        BlockstoreInsertionMetrics::zero(),
                        None,
                        false,
                    ).0.with_roots(seq![0])
                    &&& rooted(final(self)@.ledger, 0)
                    &&& first_slot_is_new(old(self)@) && shreds.len() < u32::MAX ==> {
                        &&& holds_entries(final(self)@, entry_views(entries@))
                        &&& consistent(final(self)@.ledger)
                        &&& ends_marked(final(self)@.ledger)
                    }
                },
            },
            result is None ==> too_long(entry_views(entries@), 0),
            ledger_sound(final(self)@.ledger),
    {
        let ghost store0 = self@;
        match entries_to_test_shreds(entries, 0, 0, true, version) {
            None => None,
            Some(shreds) => {
                let ghost views = shred_views(shreds@);
                proof {
                    lemma_storable_allowed(self@, views, now);
                }
                let _ = self.insert_unrepaired(shreds, false, now);
                proof {
                    lemma_first_slot_rooted(self@);
                    if first_slot_is_new(store0) && views.len() < u32::MAX {
                        lemma_first_slot_filled(
                            store0,
                            views,
                            entry_views(entries@),
                            version,
                            now,
                            self@,
                        );
                    }
                }
                let mut roots: Vec<Slot> = Vec::new();
                roots.push(0);
                assert(roots@ =~= seq![0]);
                self.set_roots(&roots);
                Some(entries[entries.len() - 1].hash)
            },
        }
    }
}

} // verus!
