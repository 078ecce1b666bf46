//! Cutting a sequence of slots into its runs.
use vstd::prelude::*;
use crate::plan::{ascending, lemma_run_end_bounds, run_end, run_start, runs_from};

verus! {

/// The slots as natural numbers.
pub open spec fn nats(slots: Seq<u64>) -> Seq<nat> {
    Seq::new(slots.len(), |i: int| slots[i] as nat)
}

/// The runs as pairs of indices.
pub open spec fn run_pairs(runs: Seq<(usize, usize)>) -> Seq<(int, int)> {
    Seq::new(runs.len(), |k: int| (runs[k].0 as int, runs[k].1 as int))
}

/// The runs lie one behind the other, none is empty, and together they
/// cover the indices from `0` up to `n`.
pub open spec fn tiles(runs: Seq<(usize, usize)>, n: int) -> bool {
    &&& forall|k: int| 0 <= k < runs.len() ==> (#[trigger] runs[k]).0 < runs[k].1 <= n
    &&& forall|j: int, k: int|
        0 <= j && k == j + 1 && k < runs.len() ==> (#[trigger] runs[j]).1 == (#[trigger] runs[k]).0
    &&& runs.len() > 0 ==> runs[0].0 == 0 && runs[runs.len() - 1].1 == n
    &&& runs.len() == 0 ==> n == 0
}

/// Inside a run every index has the run's slot, its start and its end.
pub open spec fn run_of_each(runs: Seq<(usize, usize)>, slots: Seq<nat>) -> bool {
    forall|k: int, i: int|
        #![trigger run_start(slots, i), runs[k]]
        #![trigger run_end(slots, i), runs[k]]
        #![trigger slots[i], runs[k]]
        0 <= k < runs.len() && runs[k].0 <= i < runs[k].1 ==> {
            &&& run_start(slots, i) == runs[k].0
            &&& run_end(slots, i) == runs[k].1
            &&& slots[i] == slots[runs[k].0 as int]
        }
}

/// From a run's first index to its end, every index has the same slot and
/// the same end.
pub proof fn lemma_run_end_shared(slots: Seq<nat>, from: int, i: int)
    requires
        0 <= from <= i < run_end(slots, from),
        from < slots.len(),
    ensures
        slots[i] == slots[from],
        run_end(slots, i) == run_end(slots, from),
        i < slots.len(),
    decreases i - from,
{
    lemma_run_end_bounds(slots, from);
    if from < i {
        assert(run_end(slots, from) == run_end(slots, from + 1));
        lemma_run_end_shared(slots, from + 1, i);
    }
}

/// Where a run starts at `from`, every index of it has `from` as its start.
pub proof fn lemma_run_start_shared(slots: Seq<nat>, from: int, i: int)
    requires
        0 <= from <= i < run_end(slots, from),
        from < slots.len(),
        from == 0 || slots[from - 1] != slots[from],
    ensures
        run_start(slots, i) == from,
    decreases i - from,
{
    if from < i {
        lemma_run_end_shared(slots, from, i);
        lemma_run_end_shared(slots, from, i - 1);
        lemma_run_start_shared(slots, from, i - 1);
    }
}

/// Cuts `slots` into its runs, if no slot is smaller than the one before.
pub fn runs_of(slots: &Vec<u64>) -> (r: Option<Vec<(usize, usize)>>)
    ensures
        r is Some <==> ascending(nats(slots@)),
        r matches Some(runs) ==> {
            &&& run_pairs(runs@) == runs_from(nats(slots@), 0)
            &&& tiles(runs@, slots@.len() as int)
            &&& run_of_each(runs@, nats(slots@))
        },
{
    let n: usize = slots.len();
    let ghost s = nats(slots@);
    let mut runs: Vec<(usize, usize)> = Vec::new();
    let mut start: usize = 0;
    proof {
        assert(run_pairs(runs@) + runs_from(s, 0) =~= runs_from(s, 0));
    }
    while start < n
        invariant
            n == slots@.len(),
            s == nats(slots@),
            start <= n,
            run_pairs(runs@) + runs_from(s, start as int) == runs_from(s, 0),
            forall|j: int| 0 <= j < start && j + 1 < n ==> s[j] <= #[trigger] s[j + 1],
            start == 0 || start == n || s[start - 1] != s[start as int],
            forall|k: int| 0 <= k < runs@.len() ==> (#[trigger] runs@[k]).0 < runs@[k].1 <= n,
            forall|j: int, k: int|
                0 <= j && k == j + 1 && k < runs@.len() ==> (#[trigger] runs@[j]).1 == (
                #[trigger] runs@[k]).0,
            runs@.len() > 0 ==> runs@[0].0 == 0 && runs@[runs@.len() - 1].1 == start,
            runs@.len() == 0 ==> start == 0,
            run_of_each(runs@, s),
        decreases n - start,
    {
        let mut end: usize = start + 1;
        while end < n && slots[end] == slots[start]
            invariant
                n == slots@.len(),
                s == nats(slots@),
                start < end <= n,
                run_end(s, start as int) == run_end(s, end - 1),
                forall|j: int| start <= j < end ==> s[j] == s[start as int],
            decreases n - end,
        {
            end += 1;
        }
        assert(run_end(s, start as int) == end);
        if end < n && slots[end] < slots[start] {
            proof {
                assert(s[end - 1] > s[end - 1 + 1]);
            }
            return None;
        }
        proof {
            lemma_run_end_bounds(s, start as int);
            assert(runs_from(s, start as int) == seq![(start as int, end as int)] + runs_from(
                s,
                end as int,
            ));
            assert(run_pairs(runs@.push((start, end))) =~= run_pairs(runs@) + seq![
                (start as int, end as int),
            ]);
            assert(run_pairs(runs@.push((start, end))) + runs_from(s, end as int) =~= run_pairs(
                runs@,
            ) + runs_from(s, start as int));
            assert forall|j: int| 0 <= j < end && j + 1 < n implies s[j] <= #[trigger] s[j
                + 1] by {
                if j >= start && j + 1 < end {
                    assert(s[j] == s[start as int] && s[j + 1] == s[start as int]);
                }
            }
            let grown = runs@.push((start, end));
            assert forall|k: int, i: int|
                #![trigger run_start(s, i), grown[k]]
                #![trigger run_end(s, i), grown[k]]
                #![trigger s[i], grown[k]]
                0 <= k < grown.len() && grown[k].0 <= i < grown[k].1 implies {
                &&& run_start(s, i) == grown[k].0
                &&& run_end(s, i) == grown[k].1
                &&& s[i] == s[grown[k].0 as int]
            } by {
                if k == runs@.len() {
                    lemma_run_end_shared(s, start as int, i);
                    lemma_run_start_shared(s, start as int, i);
                } else {
                    assert(grown[k] == runs@[k]);
                }
            }
        }
        runs.push((start, end));
        start = end;
    }
    proof {
        assert(runs_from(s, n as int) =~= Seq::empty());
        assert(run_pairs(runs@) + Seq::empty() =~= run_pairs(runs@));
    }
    Some(runs)
}

/// Behind a run's end the slot changes, or the sequence ends.
pub proof fn lemma_run_end_boundary(slots: Seq<nat>, i: int)
    requires
        0 <= i < slots.len(),
    ensures
        run_end(slots, i) == slots.len() || slots[run_end(slots, i) - 1] != slots[run_end(
            slots,
            i,
        )],
    decreases slots.len() - i,
{
    if !(i + 1 >= slots.len() || slots[i + 1] != slots[i]) {
        lemma_run_end_boundary(slots, i + 1);
    }
}

/// The runs lie one behind the other from `from` to `len`, and none is
/// empty.
pub open spec fn runs_tile(runs: Seq<(int, int)>, len: int, from: int) -> bool {
    &&& from < len ==> runs.len() >= 1 && runs[0].0 == from && runs[runs.len() - 1].1 == len
    &&& from >= len ==> runs.len() == 0
    &&& forall|k: int| 0 <= k < runs.len() ==> from <= (#[trigger] runs[k]).0 < runs[k].1 <= len
    &&& forall|j: int, k: int|
        0 <= j && k == j + 1 && k < runs.len() ==> (#[trigger] runs[j]).1 == (#[trigger] runs[k]).0
}

/// Inside each run every index has the run's start and end.
pub open spec fn runs_whole(runs: Seq<(int, int)>, slots: Seq<nat>) -> bool {
    forall|k: int, i: int|
        #![trigger run_start(slots, i), runs[k]]
        #![trigger run_end(slots, i), runs[k]]
        0 <= k < runs.len() && runs[k].0 <= i < runs[k].1 ==> run_start(slots, i) == runs[k].0
            && run_end(slots, i) == runs[k].1
}

/// The runs from a run's first index on tile the rest of the sequence, and
/// each is whole.
pub open spec fn runs_in_order(runs: Seq<(int, int)>, slots: Seq<nat>, from: int) -> bool {
    runs_tile(runs, slots.len() as int, from) && runs_whole(runs, slots)
}

/// Inside a run every index has the run's start and end.
pub proof fn lemma_run_of(runs: Seq<(int, int)>, slots: Seq<nat>, from: int, k: int, i: int)
    requires
        runs_in_order(runs, slots, from),
        0 <= k < runs.len(),
        runs[k].0 <= i < runs[k].1,
    ensures
        run_start(slots, i) == runs[k].0,
        run_end(slots, i) == runs[k].1,
        from <= runs[k].0 < runs[k].1 <= slots.len(),
{
}

proof fn lemma_whole_at(runs: Seq<(int, int)>, slots: Seq<nat>, k: int, i: int)
    requires
        runs_whole(runs, slots),
        0 <= k < runs.len(),
        runs[k].0 <= i < runs[k].1,
    ensures
        run_start(slots, i) == runs[k].0,
        run_end(slots, i) == runs[k].1,
{
}

proof fn lemma_runs_tile(slots: Seq<nat>, from: int)
    requires
        0 <= from <= slots.len(),
    ensures
        runs_tile(runs_from(slots, from), slots.len() as int, from),
    decreases slots.len() - from,
{
    let runs = runs_from(slots, from);
    if from < slots.len() {
        let end = run_end(slots, from);
        lemma_run_end_bounds(slots, from);
        lemma_runs_tile(slots, end);
        let rest = runs_from(slots, end);
        assert(runs =~= seq![(from, end)] + rest);
        assert forall|k: int| 0 <= k < runs.len() implies from <= (#[trigger] runs[k]).0
            < runs[k].1 <= slots.len() by {
            if k > 0 {
                assert(runs[k] == rest[k - 1]);
            }
        }
        assert forall|j: int, k: int| 0 <= j && k == j + 1 && k < runs.len() implies (
        #[trigger] runs[j]).1 == (#[trigger] runs[k]).0 by {
            if j > 0 {
                assert(runs[j] == rest[j - 1]);
                assert(runs[k] == rest[k - 1]);
            } else {
                assert(runs[1] == rest[0]);
            }
        }
        if rest.len() > 0 {
            assert(runs[runs.len() - 1] == rest[rest.len() - 1]);
        }
    }
}

proof fn lemma_runs_whole(slots: Seq<nat>, from: int)
    requires
        0 <= from <= slots.len(),
        from == 0 || from == slots.len() || slots[from - 1] != slots[from],
    ensures
        runs_whole(runs_from(slots, from), slots),
    decreases slots.len() - from,
{
    let runs = runs_from(slots, from);
    if from < slots.len() {
        let end = run_end(slots, from);
        lemma_run_end_bounds(slots, from);
        lemma_run_end_boundary(slots, from);
        lemma_runs_whole(slots, end);
        let rest = runs_from(slots, end);
        assert(runs =~= seq![(from, end)] + rest);
        assert forall|k: int, i: int|
            #![trigger run_start(slots, i), runs[k]]
            #![trigger run_end(slots, i), runs[k]]
            0 <= k < runs.len() && runs[k].0 <= i < runs[k].1 implies run_start(slots, i)
                == runs[k].0 && run_end(slots, i) == runs[k].1 by {
            if k == 0 {
                assert(runs[0] == (from, end));
                lemma_run_end_shared(slots, from, i);
                lemma_run_start_shared(slots, from, i);
            } else {
                assert(runs[k] == rest[k - 1]);
                lemma_whole_at(rest, slots, k - 1, i);
            }
        }
    }
}

/// The runs of a sequence are in order.
pub proof fn lemma_runs_from(slots: Seq<nat>, from: int)
    requires
        0 <= from <= slots.len(),
        from == 0 || from == slots.len() || slots[from - 1] != slots[from],
    ensures
        runs_in_order(runs_from(slots, from), slots, from),
{
    lemma_runs_tile(slots, from);
    lemma_runs_whole(slots, from);
}

/// Of runs in order, an earlier one ends no later than a later one starts.
pub proof fn lemma_runs_apart(runs: Seq<(int, int)>, slots: Seq<nat>, from: int, j: int, k: int)
    requires
        runs_in_order(runs, slots, from),
        0 <= j < k < runs.len(),
    ensures
        runs[j].1 <= runs[k].0,
    decreases k - j,
{
    if j + 1 < k {
        lemma_runs_apart(runs, slots, from, j + 1, k);
        assert(runs[j].1 == runs[j + 1].0);
        assert(runs[j + 1].0 < runs[j + 1].1);
    } else {
        assert(runs[j].1 == runs[k].0);
    }
}

/// Every index from `from` on lies in one of the runs.
pub proof fn lemma_runs_cover(runs: Seq<(int, int)>, slots: Seq<nat>, from: int, i: int, upto: int) -> (k:
    int)
    requires
        runs_in_order(runs, slots, from),
        from <= i < slots.len(),
        0 <= upto < runs.len(),
        i < runs[upto].1,
    ensures
        0 <= k <= upto,
        runs[k].0 <= i < runs[k].1,
    decreases upto,
{
    if runs[upto].0 <= i {
        upto
    } else {
        assert(upto > 0);
        assert(runs[upto - 1].1 == runs[upto].0);
        lemma_runs_cover(runs, slots, from, i, upto - 1)
    }
}

} // verus!
