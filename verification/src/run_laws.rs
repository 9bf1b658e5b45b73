//! Every run of entries is reported once, whatever the order in which its shreds come.

use vstd::prelude::*;
use crate::slot_update::{all_present, completed_runs, run_end, run_start};

verus! {

/// A data shred that came: its index, and whether it ends a run of entries.
pub struct Arrival {
    pub index: u32,
    pub ends_run: bool,
}

/// The indexes of the shreds that came.
pub open spec fn received_of(arrivals: Seq<Arrival>) -> Set<u64>
    decreases arrivals.len(),
{
    if arrivals.len() == 0 {
        Set::empty()
    } else {
        received_of(arrivals.drop_last()).insert(arrivals.last().index as u64)
    }
}

/// The ends of runs among the shreds that came: what `update_completed_data_indexes` has noted.
pub open spec fn ends_of(arrivals: Seq<Arrival>) -> Set<u32>
    decreases arrivals.len(),
{
    if arrivals.len() == 0 {
        Set::empty()
    } else if arrivals.last().ends_run {
        ends_of(arrivals.drop_last()).insert(arrivals.last().index)
    } else {
        ends_of(arrivals.drop_last())
    }
}

/// The runs that `update_completed_data_indexes` has returned, one call after the other.
pub open spec fn reported(arrivals: Seq<Arrival>) -> Seq<(u32, u32)>
    decreases arrivals.len(),
{
    if arrivals.len() == 0 {
        Seq::empty()
    } else {
        reported(arrivals.drop_last()) + completed_runs(
            arrivals.last().ends_run,
            arrivals.last().index,
            received_of(arrivals),
            ends_of(arrivals.drop_last()),
        )
    }
}

/// A run from its first to its last shred: it starts at index 0 or after an end, it ends at the
/// next end, and all of its shreds have come.
pub open spec fn is_run(received: Set<u64>, ends: Set<u32>, run: (u32, u32)) -> bool {
    &&& run.0 <= run.1
    &&& ends.contains(run.1)
    &&& run.0 == 0 || ends.contains((run.0 - 1) as u32)
    &&& forall|i: u32| run.0 <= i < run.1 ==> !#[trigger] ends.contains(i)
    &&& forall|i: u64| run.0 <= i <= run.1 ==> #[trigger] received.contains(i)
}

/// No shred comes twice, and every index has a successor.
pub open spec fn come_once(arrivals: Seq<Arrival>) -> bool {
    &&& forall|i: int|
        0 <= i < arrivals.len() ==> (#[trigger] arrivals[i]).index < u32::MAX
    &&& forall|i: int, j: int|
        0 <= i < j < arrivals.len() ==> (#[trigger] arrivals[i]).index != (
        #[trigger] arrivals[j]).index
}

/// Where a run starts.
proof fn lemma_starts(ends: Set<u32>, n: u32)
    ensures
        0 <= run_start(ends, n as int) <= n,
        run_start(ends, n as int) == 0 || ends.contains((run_start(ends, n as int) - 1) as u32),
        forall|i: u32| run_start(ends, n as int) <= i < n ==> !#[trigger] ends.contains(i),
    decreases n,
{
    if n > 0 && !ends.contains((n - 1) as u32) {
        lemma_starts(ends, (n - 1) as u32);
    }
}

/// Where a run ends.
proof fn lemma_ends(ends: Set<u32>, n: int)
    requires
        0 <= n <= u32::MAX + 1,
    ensures
        match run_end(ends, n) {
            Some(end) => n <= end && ends.contains(end) && forall|i: u32|
                n <= i < end ==> !#[trigger] ends.contains(i),
            None => forall|i: u32| n <= i ==> !#[trigger] ends.contains(i),
        },
    decreases 0x1_0000_0000 - n,
{
    if n <= u32::MAX && !ends.contains(n as u32) {
        lemma_ends(ends, n + 1);
    }
}

/// The shreds that came, and the ends among them.
proof fn lemma_came(arrivals: Seq<Arrival>)
    ensures
        forall|i: u64| #[trigger]
            received_of(arrivals).contains(i) <==> exists|j: int|
                0 <= j < arrivals.len() && (#[trigger] arrivals[j]).index == i,
        forall|i: u32| #[trigger]
            ends_of(arrivals).contains(i) <==> exists|j: int|
                0 <= j < arrivals.len() && (#[trigger] arrivals[j]).index == i
                    && arrivals[j].ends_run,
        forall|i: u32| #[trigger]
            ends_of(arrivals).contains(i) ==> received_of(arrivals).contains(i as u64),
    decreases arrivals.len(),
{
    if arrivals.len() > 0 {
        let before = arrivals.drop_last();
        let n = arrivals.len() - 1;
        lemma_came(before);
        assert forall|i: u64| #[trigger] received_of(arrivals).contains(i) <==> exists|j: int|
            0 <= j < arrivals.len() && (#[trigger] arrivals[j]).index == i by {
            if received_of(before).contains(i) {
                let j = choose|j: int| 0 <= j < before.len() && (#[trigger] before[j]).index == i;
                assert(arrivals[j] == before[j]);
            }
            if exists|j: int| 0 <= j < arrivals.len() && (#[trigger] arrivals[j]).index == i {
                let j = choose|j: int|
                    0 <= j < arrivals.len() && (#[trigger] arrivals[j]).index == i;
                if j < n {
                    assert(before[j] == arrivals[j]);
                }
            }
            assert(arrivals[n] == arrivals.last());
        }
        assert forall|i: u32| #[trigger] ends_of(arrivals).contains(i) <==> exists|j: int|
            0 <= j < arrivals.len() && (#[trigger] arrivals[j]).index == i
                && arrivals[j].ends_run by {
            if ends_of(before).contains(i) {
                let j = choose|j: int|
                    0 <= j < before.len() && (#[trigger] before[j]).index == i
                        && before[j].ends_run;
                assert(arrivals[j] == before[j]);
            }
            if exists|j: int|
                0 <= j < arrivals.len() && (#[trigger] arrivals[j]).index == i
                    && arrivals[j].ends_run {
                let j = choose|j: int|
                    0 <= j < arrivals.len() && (#[trigger] arrivals[j]).index == i
                        && arrivals[j].ends_run;
                if j < n {
                    assert(before[j] == arrivals[j]);
                }
            }
            assert(arrivals[n] == arrivals.last());
        }
    }
}

/// A shred completes exactly the runs that there were not before it came.
pub proof fn lemma_completes(
    received: Set<u64>,
    ends: Set<u32>,
    index: u32,
    ends_run: bool,
    run: (u32, u32),
)
    requires
        index < u32::MAX,
        !received.contains(index as u64),
        forall|i: u32| #[trigger] ends.contains(i) ==> received.contains(i as u64),
    ensures
        ({
            let now = received.insert(index as u64);
            let now_ends = if ends_run {
                ends.insert(index)
            } else {
                ends
            };
            let runs = completed_runs(ends_run, index, now, ends);
            &&& runs.contains(run) <==> is_run(now, now_ends, run) && !is_run(received, ends, run)
            &&& is_run(received, ends, run) ==> is_run(now, now_ends, run)
            &&& runs.no_duplicates()
        }),
{
    let now = received.insert(index as u64);
    let now_ends = if ends_run {
        ends.insert(index)
    } else {
        ends
    };
    let runs = completed_runs(ends_run, index, now, ends);
    let start = run_start(ends, index as int);
    let begin = if ends_run {
        index + 1
    } else {
        start
    };
    let end = run_end(ends, index + 1);
    lemma_starts(ends, index);
    lemma_ends(ends, index + 1);
    assert(!ends.contains(index));
    if is_run(received, ends, run) {
        assert forall|i: u64| run.0 <= i <= run.1 implies #[trigger] now.contains(i) by {
            assert(received.contains(i));
        }
        assert forall|i: u32| run.0 <= i < run.1 implies !#[trigger] now_ends.contains(i) by {
            assert(received.contains(i as u64));
            assert(!ends.contains(i));
        }
    }
    let own = (start as u32, index);
    let has_own = ends_run && all_present(now, start, index as int);
    let has_next = end is Some && all_present(now, begin, end->0 as int);
    let next = (begin as u32, end->0);
    assert(runs.contains(run) <==> (has_own && run == own) || (has_next && run == next)) by {
        if has_own {
            assert(runs[0] == own);
        }
        if has_next {
            assert(runs[runs.len() - 1] == next);
        }
    }
    if has_own {
        assert(is_run(now, now_ends, own));
        assert(now_ends.contains(index));
        assert(!is_run(received, ends, own));
    }
    if has_next {
        assert(is_run(now, now_ends, next)) by {
            assert forall|i: u32| next.0 <= i < next.1 implies !#[trigger] now_ends.contains(i) by {
                if i < index {
                    assert(!ends.contains(i));
                } else if i > index {
                    assert(!ends.contains(i));
                }
            }
            if ends_run {
                assert(now_ends.contains((next.0 - 1) as u32));
            }
        }
        assert(!is_run(received, ends, next)) by {
            if is_run(received, ends, next) && !ends_run {
                assert(received.contains(index as u64));
            }
        }
    }
    if is_run(now, now_ends, run) && !is_run(received, ends, run) {
        lemma_new_run(received, ends, index, ends_run, run);
    }
}

/// A run that was not there before is one of the two that a shred can complete.
proof fn lemma_new_run(
    received: Set<u64>,
    ends: Set<u32>,
    index: u32,
    ends_run: bool,
    run: (u32, u32),
)
    requires
        index < u32::MAX,
        !received.contains(index as u64),
        !ends.contains(index),
        is_run(
            received.insert(index as u64),
            if ends_run {
                ends.insert(index)
            } else {
                ends
            },
            run,
        ),
        !is_run(received, ends, run),
    ensures
        ({
            let start = run_start(ends, index as int);
            let end = run_end(ends, index + 1);
            ||| ends_run && run == (start as u32, index)
            ||| end == Some(run.1) && run.0 == if ends_run {
                index + 1
            } else {
                start
            }
        }),
{
    let now = received.insert(index as u64);
    let now_ends = if ends_run {
        ends.insert(index)
    } else {
        ends
    };
    let start = run_start(ends, index as int);
    lemma_starts(ends, index);
    lemma_ends(ends, index + 1);
    if run.0 <= index <= run.1 {
        assert(run.0 == start) by {
            if run.0 < start {
                let i = (start - 1) as u32;
                assert(ends.contains(i));
                assert(now_ends.contains(i));
            }
            if run.0 > start {
                let i = (run.0 - 1) as u32;
                assert(now_ends.contains(i));
                assert(!ends.contains(i));
            }
        }
        if run.1 > index {
            assert(!now_ends.contains(index));
            assert(ends.contains(run.1));
            match run_end(ends, index + 1) {
                Some(e) => {
                    if e < run.1 {
                        assert(now_ends.contains(e));
                    }
                },
                None => {},
            }
        }
    } else if ends_run && run.0 == index + 1 {
        assert(ends.contains(run.1));
        match run_end(ends, index + 1) {
            Some(e) => {
                if e < run.1 {
                    assert(now_ends.contains(e));
                }
            },
            None => {},
        }
    } else {
        assert(is_run(received, ends, run)) by {
            assert forall|i: u64| run.0 <= i <= run.1 implies #[trigger] received.contains(i) by {
                assert(now.contains(i));
            }
            assert forall|i: u32| run.0 <= i < run.1 implies !#[trigger] ends.contains(i) by {
                assert(!now_ends.contains(i));
            }
            assert(ends.contains(run.1));
            if run.0 > 0 {
                assert(now_ends.contains((run.0 - 1) as u32));
            }
        }
    }
}

/// Every run is reported once: over a series of calls of `update_completed_data_indexes`, one
/// for each shred that comes, the ends that were noted are those among the shreds, and the runs
/// that were returned are exactly the runs of the shreds that came, each returned once.
pub proof fn law_each_run_is_reported_once(arrivals: Seq<Arrival>)
    requires
        come_once(arrivals),
    ensures
        reported(arrivals).no_duplicates(),
        forall|run: (u32, u32)| #[trigger]
            reported(arrivals).contains(run) <==> is_run(
                received_of(arrivals),
                ends_of(arrivals),
                run,
            ),
        forall|i: u32| #[trigger]
            ends_of(arrivals).contains(i) <==> exists|j: int|
                0 <= j < arrivals.len() && (#[trigger] arrivals[j]).index == i
                    && arrivals[j].ends_run,
        forall|i: u64| #[trigger]
            received_of(arrivals).contains(i) <==> exists|j: int|
                0 <= j < arrivals.len() && (#[trigger] arrivals[j]).index == i,
    decreases arrivals.len(),
{
    lemma_came(arrivals);
    if arrivals.len() > 0 {
        let before = arrivals.drop_last();
        let last = arrivals.last();
        let n = arrivals.len() - 1;
        assert forall|i: int| 0 <= i < before.len() implies (#[trigger] before[i]).index < u32::MAX by {
            assert(before[i] == arrivals[i]);
        }
        assert forall|i: int, j: int| 0 <= i < j < before.len() implies (
        #[trigger] before[i]).index != (#[trigger] before[j]).index by {
            assert(before[i] == arrivals[i] && before[j] == arrivals[j]);
        }
        law_each_run_is_reported_once(before);
        lemma_came(before);
        let received = received_of(before);
        let ends = ends_of(before);
        assert(!received.contains(last.index as u64)) by {
            if received.contains(last.index as u64) {
                let j = choose|j: int|
                    0 <= j < before.len() && (#[trigger] before[j]).index == last.index as u64;
                assert(arrivals[j].index == arrivals[n].index);
            }
        }
        assert(arrivals[n].index < u32::MAX);
        let earlier = reported(before);
        let new = completed_runs(last.ends_run, last.index, received_of(arrivals), ends);
        let all = reported(arrivals);
        assert(all == earlier + new);
        assert forall|run: (u32, u32)| #[trigger] all.contains(run) <==> is_run(
            received_of(arrivals),
            ends_of(arrivals),
            run,
        ) by {
            lemma_completes(received, ends, last.index, last.ends_run, run);
            assert(earlier.contains(run) <==> is_run(received, ends, run));
            assert(all.contains(run) <==> earlier.contains(run) || new.contains(run)) by {
                if earlier.contains(run) {
                    let i = choose|i: int| 0 <= i < earlier.len() && earlier[i] == run;
                    assert(all[i] == run);
                }
                if new.contains(run) {
                    let i = choose|i: int| 0 <= i < new.len() && new[i] == run;
                    assert(all[earlier.len() + i] == run);
                }
                if all.contains(run) {
                    let i = choose|i: int| 0 <= i < all.len() && all[i] == run;
                    if i < earlier.len() {
                        assert(earlier[i] == run);
                    } else {
                        assert(new[i - earlier.len()] == run);
                    }
                }
            }
        }
        lemma_completes(received, ends, last.index, last.ends_run, (0, 0));
        assert forall|i: int, j: int| 0 <= i < j < all.len() implies all[i] != all[j] by {
            if i < earlier.len() && j >= earlier.len() {
                let run = new[j - earlier.len()];
                lemma_completes(received, ends, last.index, last.ends_run, run);
                assert(new.contains(run));
                if earlier[i] == run {
                    assert(earlier.contains(run));
                }
            }
        }
    }
}

/// The order in which shreds come does not matter: the same shreds lead to the same reports.
pub proof fn law_reports_do_not_depend_on_order(a: Seq<Arrival>, b: Seq<Arrival>)
    requires
        come_once(a),
        come_once(b),
        forall|x: Arrival| #[trigger] a.contains(x) <==> b.contains(x),
    ensures
        forall|run: (u32, u32)| #[trigger] reported(a).contains(run) <==> reported(b).contains(run),
        ends_of(a) == ends_of(b),
{
    law_each_run_is_reported_once(a);
    law_each_run_is_reported_once(b);
    assert forall|i: u64| #[trigger] received_of(a).contains(i) <==> received_of(b).contains(i) by {
        lemma_same_came(a, b, i);
        lemma_same_came(b, a, i);
    }
    assert forall|i: u32| #[trigger] ends_of(a).contains(i) <==> ends_of(b).contains(i) by {
        lemma_same_came(a, b, i as u64);
        lemma_same_came(b, a, i as u64);
    }
    assert(received_of(a) =~= received_of(b));
    assert(ends_of(a) =~= ends_of(b));
    assert forall|run: (u32, u32)| #[trigger] reported(a).contains(run) <==> reported(b).contains(
        run,
    ) by {
        assert(reported(a).contains(run) <==> is_run(received_of(a), ends_of(a), run));
    }
}

proof fn lemma_same_came(a: Seq<Arrival>, b: Seq<Arrival>, i: u64)
    requires
        forall|x: Arrival| #[trigger] a.contains(x) ==> b.contains(x),
    ensures
        received_of(a).contains(i) ==> received_of(b).contains(i),
        i <= u32::MAX && ends_of(a).contains(i as u32) ==> ends_of(b).contains(i as u32),
{
    lemma_came(a);
    lemma_came(b);
    if received_of(a).contains(i) {
        let j = choose|j: int| 0 <= j < a.len() && (#[trigger] a[j]).index == i;
        assert(a.contains(a[j]));
        let k = choose|k: int| 0 <= k < b.len() && b[k] == a[j];
        assert(b[k].index == i);
    }
    if i <= u32::MAX && ends_of(a).contains(i as u32) {
        let e = i as u32;
        let j = choose|j: int|
            0 <= j < a.len() && (#[trigger] a[j]).index == e && a[j].ends_run;
        assert(a.contains(a[j]));
        let k = choose|k: int| 0 <= k < b.len() && b[k] == a[j];
        assert(b[k].index == e && b[k].ends_run);
    }
}

} // verus!
