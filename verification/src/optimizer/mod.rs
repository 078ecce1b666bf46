//! Search for configurations on the size/accuracy frontier.
use vstd::prelude::*;
use vstd::seq_lib::{lemma_multiset_commutative, to_multiset_build, to_multiset_remove};
use crate::optimizer::configs::{bytes_less, text_less};
use crate::text::str_equal;

pub mod configs;
pub mod profile;
pub mod search;

pub use search::{find_pareto_efficient_configs, front_of, measure_rmis};

verus! {

/// One unit of `average_log2_error` is `2^-32` of a bit.
pub const LOG2_ERROR_ONE: u64 = 0x1_0000_0000;

/// Two mean errors closer than this count as equal when sizes tie.
pub const LOG2_ERROR_EPSILON: u64 = 1;

/// What the optimizer keeps of one trained index.
///
/// `average_log2_error` is a fixed-point number in units of `2^-32`;
/// `max_log2_error` is a whole number of bits; `size` is in bytes.
#[derive(Debug)]
pub struct RMIStatistics {
    pub models: String,
    pub branching_factor: u64,
    pub average_log2_error: u64,
    pub max_log2_error: u64,
    pub size: u64,
}

impl Clone for RMIStatistics {
    fn clone(&self) -> (r: Self)
        ensures
            r == *self,
    {
        RMIStatistics {
            models: self.models.clone(),
            branching_factor: self.branching_factor,
            average_log2_error: self.average_log2_error,
            max_log2_error: self.max_log2_error,
            size: self.size,
        }
    }
}

/// What the statistics hold, as a mathematical value.
pub ghost struct Stats {
    pub models: Seq<char>,
    pub branching_factor: u64,
    pub average_log2_error: u64,
    pub max_log2_error: u64,
    pub size: u64,
}

impl View for RMIStatistics {
    type V = Stats;

    open spec fn view(&self) -> Stats {
        Stats {
            models: self.models@,
            branching_factor: self.branching_factor,
            average_log2_error: self.average_log2_error,
            max_log2_error: self.max_log2_error,
            size: self.size,
        }
    }
}

/// What each of the statistics holds.
pub open spec fn stat_views(results: Seq<RMIStatistics>) -> Seq<Stats> {
    Seq::new(results.len(), |i: int| results[i]@)
}

impl Stats {
    /// `other` is no larger and no less accurate than `self`, and strictly
    /// better in size or, by at least the epsilon, in accuracy.
    pub open spec fn dominated_by(self, other: Stats) -> bool {
        &&& other.size <= self.size
        &&& other.average_log2_error <= self.average_log2_error
        &&& (other.size < self.size || other.average_log2_error + LOG2_ERROR_EPSILON
            <= self.average_log2_error)
    }

    pub open spec fn has_config(self, models: Seq<char>, branching_factor: u64) -> bool {
        self.models == models && self.branching_factor == branching_factor
    }
}

impl RMIStatistics {
    pub fn dominated_by(&self, other: &RMIStatistics) -> (r: bool)
        ensures
            r == self@.dominated_by(other@),
    {
        if self.size < other.size {
            return false;
        }
        if self.average_log2_error < other.average_log2_error {
            return false;
        }
        let log2_diff: u64 = self.average_log2_error - other.average_log2_error;
        if self.size <= other.size && log2_diff < LOG2_ERROR_EPSILON {
            return false;
        }
        true
    }

    pub fn has_config(&self, models: &str, branching_factor: u64) -> (r: bool)
        ensures
            r == self@.has_config(models@, branching_factor),
    {
        str_equal(self.models.as_str(), models) && self.branching_factor == branching_factor
    }
}

/// Some member of `all` dominates `r`.
pub open spec fn dominated_in(r: Stats, all: Seq<Stats>) -> bool {
    exists|j: int| 0 <= j < all.len() && #[trigger] r.dominated_by(all[j])
}

/// The test that keeps the members of `all` that nothing in `all` dominates.
pub open spec fn non_dominated(all: Seq<Stats>) -> spec_fn(Stats) -> bool {
    |r: Stats| !dominated_in(r, all)
}

/// The frontier of `results`: its non-dominated members, in their order.
pub open spec fn pareto_front_spec(results: Seq<Stats>) -> Seq<Stats> {
    results.filter(non_dominated(results))
}

fn dominated_by_any(result: &RMIStatistics, results: &[RMIStatistics]) -> (r: bool)
    ensures
        r == dominated_in(result@, stat_views(results@)),
{
    let ghost all = stat_views(results@);
    let mut j: usize = 0;
    while j < results.len()
        invariant
            j <= results@.len(),
            all == stat_views(results@),
            forall|k: int| 0 <= k < j ==> !#[trigger] result@.dominated_by(all[k]),
        decreases results@.len() - j,
    {
        assert(all[j as int] == results@[j as int]@);
        if result.dominated_by(&results[j]) {
            return true;
        }
        j += 1;
    }
    false
}

pub fn pareto_front(results: &[RMIStatistics]) -> (on_front: Vec<RMIStatistics>)
    ensures
        stat_views(on_front@) == pareto_front_spec(stat_views(results@)),
{
    let ghost all = stat_views(results@);
    let mut on_front: Vec<RMIStatistics> = Vec::new();
    let mut i: usize = 0;
    proof {
        reveal(Seq::filter);
        assert(all.take(0).filter(non_dominated(all)) =~= Seq::empty());
        assert(stat_views(on_front@) =~= Seq::empty());
    }
    while i < results.len()
        invariant
            i <= results@.len(),
            all == stat_views(results@),
            stat_views(on_front@) == all.take(i as int).filter(non_dominated(all)),
        decreases results@.len() - i,
    {
        let dominated = dominated_by_any(&results[i], results);
        proof {
            reveal(Seq::filter);
            let t = all.take(i + 1);
            assert(t.drop_last() =~= all.take(i as int));
            assert(t.last() == results@[i as int]@);
        }
        if !dominated {
            let x = results[i].clone();
            proof {
                assert(stat_views(on_front@.push(x)) =~= stat_views(on_front@).push(x@));
            }
            on_front.push(x);
        }
        i += 1;
    }
    proof {
        assert(all.take(results@.len() as int) =~= all);
    }
    on_front
}

/// No member of a frontier dominates another, every member of it comes from
/// the results, and a result is on the frontier exactly when no result
/// dominates it.
pub proof fn lemma_pareto_front(results: Seq<Stats>)
    ensures
        forall|i: int, j: int|
            0 <= i < pareto_front_spec(results).len() && 0 <= j < pareto_front_spec(results).len()
                ==> !#[trigger] pareto_front_spec(results)[i].dominated_by(
                pareto_front_spec(results)[j],
            ),
        forall|i: int|
            0 <= i < pareto_front_spec(results).len() ==> results.contains(
                #[trigger] pareto_front_spec(results)[i],
            ),
        forall|i: int|
            0 <= i < results.len() ==> (pareto_front_spec(results).contains(#[trigger] results[i])
                <==> !dominated_in(results[i], results)),
{
    let front = pareto_front_spec(results);
    let keep = non_dominated(results);
    #[allow(deprecated)]
    results.filter_lemma(keep);
    assert forall|i: int| 0 <= i < front.len() implies results.contains(#[trigger] front[i]) by {
        lemma_filter_member(results, keep, i);
    }
    assert forall|i: int, j: int| 0 <= i < front.len() && 0 <= j < front.len() implies !
    #[trigger] front[i].dominated_by(front[j]) by {
        lemma_filter_member(results, keep, j);
        let k = choose|k: int| 0 <= k < results.len() && results[k] == front[j];
        assert(keep(front[i]));
        if front[i].dominated_by(front[j]) {
            assert(front[i].dominated_by(results[k]));
        }
    }
    assert forall|i: int| 0 <= i < results.len() implies (front.contains(#[trigger] results[i])
        <==> !dominated_in(results[i], results)) by {
        if front.contains(results[i]) {
            let k = choose|k: int| 0 <= k < front.len() && front[k] == results[i];
            assert(keep(front[k]));
        }
        if !dominated_in(results[i], results) {
            assert(keep(results[i]));
        }
    }
}

/// Each item of a filtered sequence is an item of the sequence.
pub proof fn lemma_filter_member<A>(s: Seq<A>, keep: spec_fn(A) -> bool, i: int)
    requires
        0 <= i < s.filter(keep).len(),
    ensures
        s.contains(s.filter(keep)[i]),
    decreases s.len(),
{
    reveal(Seq::filter);
    if s.len() > 0 {
        let sub = s.drop_last().filter(keep);
        if i < sub.len() {
            lemma_filter_member(s.drop_last(), keep, i);
            let k = choose|k: int| 0 <= k < s.drop_last().len() && s.drop_last()[k] == sub[i];
            assert(s[k] == sub[i]);
        } else {
            assert(s[s.len() - 1] == s.filter(keep)[i]);
        }
    }
}

/// `s` with `x` put behind the last member that `x` may follow.
pub open spec fn insert_where(s: Seq<Stats>, x: Stats, follows: spec_fn(Stats, Stats) -> bool) -> Seq<
    Stats,
>
    decreases s.len(),
{
    if s.len() == 0 {
        seq![x]
    } else if follows(x, s.last()) {
        s.push(x)
    } else {
        insert_where(s.drop_last(), x, follows).push(s.last())
    }
}

/// `s` sorted by insertion: each member in turn is put behind the last of
/// the members before it that it may follow.
pub open spec fn sorted_where(s: Seq<Stats>, follows: spec_fn(Stats, Stats) -> bool) -> Seq<Stats>
    decreases s.len(),
{
    if s.len() == 0 {
        s
    } else {
        insert_where(sorted_where(s.drop_last(), follows), s.last(), follows)
    }
}

/// `x` may follow `e` in the order of size: it is no smaller.
pub open spec fn by_size() -> spec_fn(Stats, Stats) -> bool {
    |x: Stats, e: Stats| e.size <= x.size
}

/// `a` comes strictly before `b` in the order of accuracy: by the mean
/// error, then by size, then by the layer list.
pub open spec fn more_accurate(a: Stats, b: Stats) -> bool {
    a.average_log2_error < b.average_log2_error || (a.average_log2_error == b.average_log2_error
        && (a.size < b.size || (a.size == b.size && crate::optimizer::configs::text_less(
        a.models,
        b.models,
    ))))
}

/// `x` may follow `e` in the order of accuracy: it does not come strictly
/// before it.
pub open spec fn by_accuracy() -> spec_fn(Stats, Stats) -> bool {
    |x: Stats, e: Stats| !more_accurate(x, e)
}

/// `s` in ascending order of size; members of one size keep their order.
pub open spec fn sorted_by_size(s: Seq<Stats>) -> Seq<Stats> {
    sorted_where(s, by_size())
}

/// `s` in ascending order of mean error; members of one mean error are
/// in ascending order of size, and those of one size in the order of their
/// layer lists.
pub open spec fn sorted_by_accuracy(s: Seq<Stats>) -> Seq<Stats> {
    sorted_where(s, by_accuracy())
}

/// The ratio `a2 / a1` is smaller than the ratio `b2 / b1`.
pub open spec fn ratio_less(a1: u64, a2: u64, b1: u64, b2: u64) -> bool {
    a2 * b1 < b2 * a1
}

/// Among the first `n` members of `s`, the first index whose member and
/// successor are closest in size, by ratio.
pub open spec fn smallest_gap(s: Seq<Stats>, n: nat) -> int
    decreases n,
{
    if n <= 2 {
        0
    } else {
        let j = smallest_gap(s, (n - 1) as nat);
        let k = n - 2;
        if ratio_less(s[k].size, s[k + 1].size, s[j].size, s[j + 1].size) {
            k
        } else {
            j
        }
    }
}

/// The index that one narrowing step removes: of the closest pair, the less
/// accurate member, and the larger one when they are equally accurate.
pub open spec fn narrow_victim(s: Seq<Stats>) -> int {
    let i = smallest_gap(s, s.len());
    if s[i].average_log2_error > s[i + 1].average_log2_error {
        i
    } else {
        i + 1
    }
}

/// `s` after `removals` narrowing steps.
pub open spec fn narrowed_tail(s: Seq<Stats>, removals: nat) -> Seq<Stats>
    decreases removals,
{
    if removals == 0 {
        s
    } else {
        narrowed_tail(s.remove(narrow_victim(s)), (removals - 1) as nat)
    }
}

/// A frontier cut down to `desired_size` members: the smallest, then what
/// narrowing leaves of the others.
pub open spec fn narrow_front_spec(results: Seq<Stats>, desired_size: nat) -> Seq<Stats> {
    if results.len() <= desired_size {
        results
    } else {
        let sorted = sorted_by_size(results);
        seq![sorted[0]] + narrowed_tail(
            sorted.drop_first(),
            (results.len() - desired_size) as nat,
        )
    }
}

pub proof fn lemma_insert_at(s: Seq<Stats>, x: Stats, j: int, follows: spec_fn(Stats, Stats) -> bool)
    requires
        0 <= j <= s.len(),
        forall|k: int| j <= k < s.len() ==> !follows(x, #[trigger] s[k]),
        j > 0 ==> follows(x, s[j - 1]),
    ensures
        insert_where(s, x, follows) == s.insert(j, x),
    decreases s.len(),
{
    if s.len() == 0 {
        assert(s.insert(j, x) =~= seq![x]);
    } else if j == s.len() {
        assert(s.insert(j, x) =~= s.push(x));
    } else {
        assert(!follows(x, s[s.len() - 1]));
        lemma_insert_at(s.drop_last(), x, j, follows);
        assert(s.insert(j, x) =~= s.drop_last().insert(j, x).push(s.last()));
    }
}

fn copy_all(results: &[RMIStatistics]) -> (out: Vec<RMIStatistics>)
    ensures
        stat_views(out@) == stat_views(results@),
{
    let mut out: Vec<RMIStatistics> = Vec::new();
    let mut i: usize = 0;
    while i < results.len()
        invariant
            i <= results@.len(),
            out@.len() == i,
            forall|k: int| 0 <= k < i ==> out@[k]@ == results@[k]@,
        decreases results@.len() - i,
    {
        out.push(results[i].clone());
        i += 1;
    }
    assert(stat_views(out@) =~= stat_views(results@));
    out
}

fn sort_by_size(results: &[RMIStatistics]) -> (out: Vec<RMIStatistics>)
    ensures
        stat_views(out@) == sorted_by_size(stat_views(results@)),
{
    let ghost all = stat_views(results@);
    let mut out: Vec<RMIStatistics> = Vec::new();
    let mut i: usize = 0;
    proof {
        assert(all.take(0) =~= Seq::empty());
        assert(stat_views(out@) =~= Seq::empty());
    }
    while i < results.len()
        invariant
            i <= results@.len(),
            all == stat_views(results@),
            stat_views(out@) == sorted_by_size(all.take(i as int)),
        decreases results@.len() - i,
    {
        let x = results[i].clone();
        let ghost sorted = stat_views(out@);
        let mut j: usize = out.len();
        while j > 0 && out[j - 1].size > x.size
            invariant
                j <= out@.len(),
                sorted == stat_views(out@),
                forall|k: int| j <= k < sorted.len() ==> sorted[k].size > x.size,
            decreases j,
        {
            assert(sorted[j - 1] == out@[j - 1]@);
            j -= 1;
        }
        proof {
            if j > 0 {
                assert(sorted[j - 1] == out@[j - 1]@);
            }
            lemma_insert_at(sorted, x@, j as int, by_size());
            let t = all.take(i + 1);
            assert(t.drop_last() =~= all.take(i as int));
            assert(t.last() == x@);
            assert(stat_views(out@.insert(j as int, x)) =~= sorted.insert(j as int, x@));
        }
        out.insert(j, x);
        i += 1;
    }
    proof {
        assert(all.take(results@.len() as int) =~= all);
    }
    out
}

fn closest_pair(tmp: &Vec<RMIStatistics>) -> (gap: usize)
    requires
        tmp@.len() >= 2,
    ensures
        gap == smallest_gap(stat_views(tmp@), tmp@.len()),
        gap + 1 < tmp@.len(),
{
    let ghost all = stat_views(tmp@);
    let mut best: usize = 0;
    let mut k: usize = 1;
    while k < tmp.len() - 1
        invariant
            tmp@.len() >= 2,
            all == stat_views(tmp@),
            1 <= k < tmp@.len(),
            best + 1 <= k,
            best == smallest_gap(all, (k + 1) as nat),
        decreases tmp@.len() - k,
    {
        let a1: u128 = tmp[k].size as u128;
        let a2: u128 = tmp[k + 1].size as u128;
        let b1: u128 = tmp[best].size as u128;
        let b2: u128 = tmp[best + 1].size as u128;
        proof {
            assert(all[k as int] == tmp@[k as int]@);
            assert(all[k + 1] == tmp@[k + 1]@);
            assert(all[best as int] == tmp@[best as int]@);
            assert(all[best + 1] == tmp@[best + 1]@);
        }
        assert(a2 * b1 <= 0xffff_ffff_ffff_ffff * 0xffff_ffff_ffff_ffff) by (nonlinear_arith)
            requires
                a2 <= 0xffff_ffff_ffff_ffff,
                b1 <= 0xffff_ffff_ffff_ffff,
        ;
        assert(b2 * a1 <= 0xffff_ffff_ffff_ffff * 0xffff_ffff_ffff_ffff) by (nonlinear_arith)
            requires
                b2 <= 0xffff_ffff_ffff_ffff,
                a1 <= 0xffff_ffff_ffff_ffff,
        ;
        if a2 * b1 < b2 * a1 {
            best = k;
        }
        k += 1;
    }
    best
}

pub fn narrow_front(results: &[RMIStatistics], desired_size: usize) -> (narrowed: Vec<
    RMIStatistics,
>)
    requires
        desired_size >= 2,
    ensures
        stat_views(narrowed@) == narrow_front_spec(stat_views(results@), desired_size as nat),
{
    if results.len() <= desired_size {
        return copy_all(results);
    }
    let ghost all = stat_views(results@);
    let mut tmp = sort_by_size(results);
    proof {
        lemma_sorted_by_size(all);
    }
    let ghost sorted = stat_views(tmp@);
    let best_mod = tmp.remove(0);
    let ghost tail = stat_views(tmp@);
    assert(tail =~= sorted_by_size(all).drop_first());
    assert(best_mod@ == sorted[0]);
    while tmp.len() > desired_size - 1
        invariant
            desired_size >= 2,
            tmp@.len() >= desired_size - 1,
            tmp@.len() <= tail.len(),
            narrowed_tail(tail, (tail.len() + 1 - desired_size) as nat) == narrowed_tail(
                stat_views(tmp@),
                (tmp@.len() + 1 - desired_size) as nat,
            ),
        decreases tmp@.len(),
    {
        let ghost now = stat_views(tmp@);
        let gap = closest_pair(&tmp);
        proof {
            assert(now[gap as int] == tmp@[gap as int]@);
            assert(now[gap + 1] == tmp@[gap + 1]@);
        }
        if tmp[gap].average_log2_error > tmp[gap + 1].average_log2_error {
            tmp.remove(gap);
            proof {
                assert(stat_views(tmp@) =~= now.remove(gap as int));
            }
        } else {
            tmp.remove(gap + 1);
            proof {
                assert(stat_views(tmp@) =~= now.remove(gap + 1));
            }
        }
    }
    let ghost kept = stat_views(tmp@);
    tmp.insert(0, best_mod);
    proof {
        assert(stat_views(tmp@) =~= seq![best_mod@] + kept);
    }
    tmp
}

/// The order agrees with a key: a member that may follow another has no
/// smaller key, and one that may not has no larger key.
pub open spec fn keyed(follows: spec_fn(Stats, Stats) -> bool, key: spec_fn(Stats) -> int) -> bool {
    forall|x: Stats, e: Stats|
        (#[trigger] follows(x, e) ==> key(e) <= key(x)) && (!follows(x, e) ==> key(x) <= key(e))
}

/// The keys of the members stand in ascending order.
pub open spec fn ascending_keys(s: Seq<Stats>, key: spec_fn(Stats) -> int) -> bool {
    forall|i: int, j: int| 0 <= i <= j < s.len() ==> key(#[trigger] s[i]) <= key(#[trigger] s[j])
}

/// The size of a member, as a key.
pub open spec fn size_key() -> spec_fn(Stats) -> int {
    |x: Stats| x.size as int
}

/// The mean error of a member, as a key.
pub open spec fn error_key() -> spec_fn(Stats) -> int {
    |x: Stats| x.average_log2_error as int
}

/// Putting a member in adds it once and changes no other.
pub proof fn lemma_insert_keeps(t: Seq<Stats>, x: Stats, follows: spec_fn(Stats, Stats) -> bool)
    ensures
        insert_where(t, x, follows).to_multiset() == t.to_multiset().insert(x),
    decreases t.len(),
{
    broadcast use vstd::multiset::group_multiset_axioms;

    if t.len() == 0 {
        assert(seq![x] =~= t.push(x));
        to_multiset_build(t, x);
    } else if follows(x, t.last()) {
        to_multiset_build(t, x);
    } else {
        let head = t.drop_last();
        lemma_insert_keeps(head, x, follows);
        to_multiset_build(insert_where(head, x, follows), t.last());
        to_multiset_build(head, t.last());
        assert(head.push(t.last()) =~= t);
        assert(insert_where(t, x, follows).to_multiset() =~= t.to_multiset().insert(x));
    }
}

/// Sorting keeps every member as often as it stood: none is doubled and
/// none is lost.
pub proof fn lemma_sorted_keeps(s: Seq<Stats>, follows: spec_fn(Stats, Stats) -> bool)
    ensures
        sorted_where(s, follows).to_multiset() == s.to_multiset(),
    decreases s.len(),
{
    if s.len() > 0 {
        let head = s.drop_last();
        lemma_sorted_keeps(head, follows);
        lemma_insert_keeps(sorted_where(head, follows), s.last(), follows);
        to_multiset_build(head, s.last());
        assert(head.push(s.last()) =~= s);
    }
}

/// The order is whole: every member may follow itself, of two members one
/// may follow the other, and what may follow a member may follow all that
/// the member may follow.
pub open spec fn whole_order(follows: spec_fn(Stats, Stats) -> bool) -> bool {
    &&& forall|x: Stats, e: Stats| #[trigger] follows(x, e) || follows(e, x)
    &&& forall|x: Stats, y: Stats, z: Stats|
        #[trigger] follows(x, y) && #[trigger] follows(y, z) ==> follows(x, z)
}

/// Every member may follow each member before it.
pub open spec fn in_order(s: Seq<Stats>, follows: spec_fn(Stats, Stats) -> bool) -> bool {
    forall|i: int, j: int| 0 <= i <= j < s.len() ==> follows(#[trigger] s[j], #[trigger] s[i])
}

proof fn lemma_insert_in_order(t: Seq<Stats>, x: Stats, follows: spec_fn(Stats, Stats) -> bool)
    requires
        whole_order(follows),
        in_order(t, follows),
    ensures
        in_order(insert_where(t, x, follows), follows),
    decreases t.len(),
{
    let out = insert_where(t, x, follows);
    assert(follows(x, x));
    if t.len() == 0 {
    } else if follows(x, t.last()) {
        assert forall|i: int, j: int| 0 <= i <= j < out.len() implies follows(
            #[trigger] out[j],
            #[trigger] out[i],
        ) by {
            if j == t.len() && i < t.len() {
                assert(follows(t.last(), t[i]));
            }
        }
    } else {
        let head = t.drop_last();
        let last = t.last();
        assert forall|i: int, j: int| 0 <= i <= j < head.len() implies follows(
            #[trigger] head[j],
            #[trigger] head[i],
        ) by {
            assert(follows(t[j], t[i]));
        }
        lemma_insert_in_order(head, x, follows);
        lemma_insert_keeps(head, x, follows);
        let inner = insert_where(head, x, follows);
        assert(follows(last, x));
        assert(follows(last, last));
        assert forall|i: int, j: int| 0 <= i <= j < out.len() implies follows(
            #[trigger] out[j],
            #[trigger] out[i],
        ) by {
            if j == inner.len() && i < inner.len() {
                broadcast use vstd::multiset::group_multiset_axioms;

                inner.to_multiset_ensures();
                head.to_multiset_ensures();
                assert(inner.contains(inner[i]));
                if inner[i] != x {
                    assert(inner.to_multiset().count(inner[i]) > 0);
                    assert(head.to_multiset().insert(x).count(inner[i]) > 0);
                    assert(head.to_multiset().count(inner[i]) > 0);
                    assert(head.contains(inner[i]));
                    let k = choose|k: int| 0 <= k < head.len() && head[k] == inner[i];
                    assert(follows(t[t.len() - 1], t[k]));
                }
            } else if j < inner.len() {
                assert(follows(inner[j], inner[i]));
            }
        }
    }
}

/// Sorting by a whole order puts the members in that order.
pub proof fn lemma_sorted_in_order(s: Seq<Stats>, follows: spec_fn(Stats, Stats) -> bool)
    requires
        whole_order(follows),
    ensures
        in_order(sorted_where(s, follows), follows),
    decreases s.len(),
{
    if s.len() > 0 {
        lemma_sorted_in_order(s.drop_last(), follows);
        lemma_insert_in_order(sorted_where(s.drop_last(), follows), s.last(), follows);
    }
}

/// No text comes before one that comes before it.
pub proof fn lemma_bytes_one_way(a: Seq<u8>, b: Seq<u8>)
    requires
        bytes_less(a, b),
    ensures
        !bytes_less(b, a),
    decreases a.len(),
{
    if a.len() > 0 && b.len() > 0 && a[0] == b[0] {
        lemma_bytes_one_way(a.drop_first(), b.drop_first());
    }
}

/// A text that does not come before a second, which does not come before a
/// third, does not come before the third.
pub proof fn lemma_bytes_chain(a: Seq<u8>, b: Seq<u8>, c: Seq<u8>)
    requires
        !bytes_less(a, b),
        !bytes_less(b, c),
    ensures
        !bytes_less(a, c),
    decreases a.len(),
{
    if a.len() > 0 && b.len() > 0 && c.len() > 0 && a[0] == b[0] && b[0] == c[0] {
        lemma_bytes_chain(a.drop_first(), b.drop_first(), c.drop_first());
    }
}

/// The order of accuracy is whole.
pub proof fn lemma_accuracy_is_whole()
    ensures
        whole_order(by_accuracy()),
{
    assert forall|x: Stats, e: Stats| #[trigger] by_accuracy()(x, e) || by_accuracy()(e, x) by {
        if text_less(x.models, e.models) {
            lemma_bytes_one_way(
                vstd::utf8::encode_utf8(x.models),
                vstd::utf8::encode_utf8(e.models),
            );
        }
    }
    assert forall|x: Stats, y: Stats, z: Stats| #[trigger]
        by_accuracy()(x, y) && #[trigger] by_accuracy()(y, z) implies by_accuracy()(x, z) by {
        if !text_less(x.models, y.models) && !text_less(y.models, z.models) {
            lemma_bytes_chain(
                vstd::utf8::encode_utf8(x.models),
                vstd::utf8::encode_utf8(y.models),
                vstd::utf8::encode_utf8(z.models),
            );
        }
    }
}

/// Sorting keeps the length and the members, each as often as it stood, and
/// where the order agrees with a key it puts the keys in ascending order.
pub proof fn lemma_sorted_where(
    s: Seq<Stats>,
    follows: spec_fn(Stats, Stats) -> bool,
    key: spec_fn(Stats) -> int,
)
    requires
        keyed(follows, key),
    ensures
        sorted_where(s, follows).len() == s.len(),
        ascending_keys(sorted_where(s, follows), key),
        sorted_where(s, follows).to_multiset() == s.to_multiset(),
        forall|i: int| 0 <= i < s.len() ==> s.contains(#[trigger] sorted_where(s, follows)[i]),
        forall|i: int| 0 <= i < s.len() ==> sorted_where(s, follows).contains(#[trigger] s[i]),
    decreases s.len(),
{
    lemma_sorted_keeps(s, follows);
    if s.len() > 0 {
        let head = s.drop_last();
        let x = s.last();
        lemma_sorted_where(head, follows, key);
        let t = sorted_where(head, follows);
        lemma_insert_where(t, x, follows, key);
        let out = sorted_where(s, follows);
        assert forall|i: int| 0 <= i < s.len() implies s.contains(#[trigger] out[i]) by {
            if out[i] == x {
                assert(s[s.len() - 1] == x);
            } else {
                assert(t.contains(out[i]));
                let k = choose|k: int| 0 <= k < t.len() && t[k] == out[i];
                assert(head.contains(t[k]));
                let m = choose|m: int| 0 <= m < head.len() && head[m] == t[k];
                assert(s[m] == out[i]);
            }
        }
        assert forall|i: int| 0 <= i < s.len() implies out.contains(#[trigger] s[i]) by {
            if i == s.len() - 1 {
                assert(out.contains(x));
            } else {
                assert(head[i] == s[i]);
                assert(t.contains(head[i]));
            }
        }
    }
}

/// Sorting by size keeps the length and the members, each as often as it
/// stood, and puts the sizes in ascending order.
pub proof fn lemma_sorted_by_size(s: Seq<Stats>)
    ensures
        sorted_by_size(s).len() == s.len(),
        sorted_by_size(s).to_multiset() == s.to_multiset(),
        forall|i: int, j: int|
            0 <= i <= j < s.len() ==> (#[trigger] sorted_by_size(s)[i]).size <= (
            #[trigger] sorted_by_size(s)[j]).size,
        forall|i: int| 0 <= i < s.len() ==> s.contains(#[trigger] sorted_by_size(s)[i]),
        forall|i: int| 0 <= i < s.len() ==> sorted_by_size(s).contains(#[trigger] s[i]),
{
    assert(keyed(by_size(), size_key()));
    lemma_sorted_where(s, by_size(), size_key());
    let out = sorted_by_size(s);
    assert forall|i: int, j: int| 0 <= i <= j < s.len() implies (#[trigger] out[i]).size <= (
    #[trigger] out[j]).size by {
        assert(size_key()(out[i]) <= size_key()(out[j]));
    }
}

/// Sorting by accuracy keeps the length and the members, each as often as
/// it stood, and puts them in the order of accuracy: no member comes
/// strictly before one that stands ahead of it, so the mean errors ascend,
/// among equal mean errors the sizes, and among equal sizes the layer lists.
pub proof fn lemma_sorted_by_accuracy(s: Seq<Stats>)
    ensures
        sorted_by_accuracy(s).len() == s.len(),
        sorted_by_accuracy(s).to_multiset() == s.to_multiset(),
        forall|i: int, j: int|
            0 <= i <= j < s.len() ==> !more_accurate(
                #[trigger] sorted_by_accuracy(s)[j],
                #[trigger] sorted_by_accuracy(s)[i],
            ),
        forall|i: int, j: int|
            0 <= i <= j < s.len() ==> (#[trigger] sorted_by_accuracy(s)[i]).average_log2_error <= (
            #[trigger] sorted_by_accuracy(s)[j]).average_log2_error,
        forall|i: int| 0 <= i < s.len() ==> s.contains(#[trigger] sorted_by_accuracy(s)[i]),
        forall|i: int| 0 <= i < s.len() ==> sorted_by_accuracy(s).contains(#[trigger] s[i]),
{
    assert(keyed(by_accuracy(), error_key()));
    lemma_sorted_where(s, by_accuracy(), error_key());
    lemma_accuracy_is_whole();
    lemma_sorted_in_order(s, by_accuracy());
    let out = sorted_by_accuracy(s);
    assert forall|i: int, j: int| 0 <= i <= j < s.len() implies !more_accurate(
        #[trigger] out[j],
        #[trigger] out[i],
    ) by {
        assert(by_accuracy()(out[j], out[i]));
    }
    assert forall|i: int, j: int| 0 <= i <= j < s.len() implies (
    #[trigger] out[i]).average_log2_error <= (#[trigger] out[j]).average_log2_error by {
        assert(error_key()(out[i]) <= error_key()(out[j]));
    }
}

proof fn lemma_insert_where(
    t: Seq<Stats>,
    x: Stats,
    follows: spec_fn(Stats, Stats) -> bool,
    key: spec_fn(Stats) -> int,
)
    requires
        keyed(follows, key),
        ascending_keys(t, key),
    ensures
        insert_where(t, x, follows).len() == t.len() + 1,
        ascending_keys(insert_where(t, x, follows), key),
        insert_where(t, x, follows).contains(x),
        forall|i: int| 0 <= i < t.len() ==> insert_where(t, x, follows).contains(#[trigger] t[i]),
        forall|i: int|
            0 <= i < t.len() + 1 ==> (#[trigger] insert_where(t, x, follows)[i]) == x || t.contains(
                insert_where(t, x, follows)[i],
            ),
    decreases t.len(),
{
    let out = insert_where(t, x, follows);
    if t.len() == 0 {
        assert(out[0] == x);
    } else if follows(x, t.last()) {
        assert(out[t.len() as int] == x);
        assert forall|i: int| 0 <= i < t.len() implies out.contains(#[trigger] t[i]) by {
            assert(out[i] == t[i]);
        }
        assert forall|i: int| 0 <= i < t.len() + 1 implies (#[trigger] out[i]) == x || t.contains(
            out[i],
        ) by {
            if i < t.len() {
                assert(t[i] == out[i]);
            }
        }
        assert forall|i: int, j: int| 0 <= i <= j < out.len() implies key(#[trigger] out[i])
            <= key(#[trigger] out[j]) by {
            if j == t.len() {
                if i < t.len() {
                    assert(out[i] == t[i]);
                    assert(key(t[i]) <= key(t[t.len() - 1]));
                }
            } else {
                assert(out[i] == t[i] && out[j] == t[j]);
            }
        }
    } else {
        let head = t.drop_last();
        assert(ascending_keys(head, key)) by {
            assert forall|i: int, j: int| 0 <= i <= j < head.len() implies key(#[trigger] head[i])
                <= key(#[trigger] head[j]) by {
                assert(head[i] == t[i] && head[j] == t[j]);
            }
        }
        lemma_insert_where(head, x, follows, key);
        let inner = insert_where(head, x, follows);
        assert forall|i: int, j: int| 0 <= i <= j < out.len() implies key(#[trigger] out[i])
            <= key(#[trigger] out[j]) by {
            if j == t.len() {
                if i < t.len() {
                    assert(out[i] == inner[i]);
                    if inner[i] != x {
                        assert(head.contains(inner[i]));
                        let k = choose|k: int| 0 <= k < head.len() && head[k] == inner[i];
                        assert(key(t[k]) <= key(t[t.len() - 1]));
                    }
                }
            } else {
                assert(out[i] == inner[i] && out[j] == inner[j]);
            }
        }
        assert(inner.contains(x));
        let w = choose|w: int| 0 <= w < inner.len() && inner[w] == x;
        assert(out[w] == x);
        assert forall|i: int| 0 <= i < t.len() implies out.contains(#[trigger] t[i]) by {
            if i == t.len() - 1 {
                assert(out[t.len() as int] == t[i]);
            } else {
                assert(inner.contains(head[i]));
                let k = choose|k: int| 0 <= k < inner.len() && inner[k] == head[i];
                assert(out[k] == t[i]);
            }
        }
        assert forall|i: int| 0 <= i < t.len() + 1 implies (#[trigger] out[i]) == x || t.contains(
            out[i],
        ) by {
            if i == t.len() {
                assert(t[t.len() - 1] == out[i]);
            } else {
                assert(out[i] == inner[i]);
                if inner[i] != x {
                    let k = choose|k: int| 0 <= k < head.len() && head[k] == inner[i];
                    assert(t[k] == out[i]);
                }
            }
        }
    }
}

/// The closest pair lies inside the sequence.
pub proof fn lemma_smallest_gap_in_range(s: Seq<Stats>, n: nat)
    requires
        n >= 2,
    ensures
        0 <= smallest_gap(s, n),
        smallest_gap(s, n) + 1 < n,
    decreases n,
{
    if n > 2 {
        lemma_smallest_gap_in_range(s, (n - 1) as nat);
    }
}

/// One narrowing step removes a member that stands next to a member at
/// least as accurate, and that neighbour stays.
pub proof fn lemma_narrow_victim(s: Seq<Stats>)
    requires
        s.len() >= 2,
    ensures
        0 <= narrow_victim(s) < s.len(),
        exists|p: int|
            0 <= p < s.len() && (p == narrow_victim(s) + 1 || p + 1 == narrow_victim(s))
                && #[trigger] s[p].average_log2_error <= s[narrow_victim(s)].average_log2_error,
{
    lemma_smallest_gap_in_range(s, s.len());
    let i = smallest_gap(s, s.len());
    if s[i].average_log2_error > s[i + 1].average_log2_error {
        assert(s[i + 1].average_log2_error <= s[narrow_victim(s)].average_log2_error);
    } else {
        assert(s[i].average_log2_error <= s[narrow_victim(s)].average_log2_error);
    }
}

/// `kept` holds a member at least as accurate as `x`.
pub open spec fn keeps_as_accurate(kept: Seq<Stats>, x: Stats) -> bool {
    exists|j: int|
        0 <= j < kept.len() && (#[trigger] kept[j]).average_log2_error <= x.average_log2_error
}

/// Narrowing removes one member per step and keeps only members of the
/// sequence.
pub proof fn lemma_narrowed_tail_members(s: Seq<Stats>, removals: nat)
    requires
        s.len() > removals,
    ensures
        narrowed_tail(s, removals).len() == s.len() - removals,
        narrowed_tail(s, removals).to_multiset().subset_of(s.to_multiset()),
        forall|j: int|
            0 <= j < narrowed_tail(s, removals).len() ==> s.contains(
                #[trigger] narrowed_tail(s, removals)[j],
            ),
    decreases removals,
{
    broadcast use vstd::multiset::group_multiset_axioms;

    let out = narrowed_tail(s, removals);
    if removals > 0 {
        lemma_narrow_victim(s);
        let v = narrow_victim(s);
        let rest = s.remove(v);
        lemma_narrowed_tail_members(rest, (removals - 1) as nat);
        to_multiset_remove(s, v);
        assert(rest.to_multiset().subset_of(s.to_multiset()));
        assert forall|j: int| 0 <= j < out.len() implies s.contains(#[trigger] out[j]) by {
            assert(rest.contains(out[j]));
            let k = choose|k: int| 0 <= k < rest.len() && rest[k] == out[j];
            if k < v {
                assert(s[k] == out[j]);
            } else {
                assert(s[k + 1] == out[j]);
            }
        }
    }
}

/// Narrowing leaves, for each member of the sequence, one that is at least
/// as accurate.
pub proof fn lemma_narrowed_tail_accuracy(s: Seq<Stats>, removals: nat, i: int)
    requires
        s.len() > removals,
        0 <= i < s.len(),
    ensures
        keeps_as_accurate(narrowed_tail(s, removals), s[i]),
    decreases removals,
{
    let out = narrowed_tail(s, removals);
    if removals == 0 {
        assert(out[i].average_log2_error <= s[i].average_log2_error);
    } else {
        lemma_narrow_victim(s);
        let v = narrow_victim(s);
        let rest = s.remove(v);
        // the member itself if it stays, else its neighbour
        let p = if i == v {
            choose|p: int|
                0 <= p < s.len() && (p == v + 1 || p + 1 == v)
                    && #[trigger] s[p].average_log2_error <= s[v].average_log2_error
        } else {
            i
        };
        let q = if p < v {
            p
        } else {
            p - 1
        };
        assert(rest[q] == s[p]);
        lemma_narrowed_tail_accuracy(rest, (removals - 1) as nat, q);
        let j = choose|j: int|
            0 <= j < out.len() && (#[trigger] out[j]).average_log2_error
                <= rest[q].average_log2_error;
        assert(out[j].average_log2_error <= s[i].average_log2_error);
    }
}

/// A narrowed frontier has exactly the desired number of members when the
/// frontier has at least that many, and is the frontier itself otherwise.
/// It holds only members of the frontier; where members were removed it
/// starts with a member of the smallest size; and for each member of the
/// frontier it holds one that is at least as accurate.
pub proof fn lemma_narrow_front(results: Seq<Stats>, desired_size: nat)
    requires
        desired_size >= 2,
    ensures
        results.len() >= desired_size ==> narrow_front_spec(results, desired_size).len()
            == desired_size,
        results.len() <= desired_size ==> narrow_front_spec(results, desired_size) == results,
        narrow_front_spec(results, desired_size).to_multiset().subset_of(results.to_multiset()),
        forall|j: int|
            0 <= j < narrow_front_spec(results, desired_size).len() ==> results.contains(
                #[trigger] narrow_front_spec(results, desired_size)[j],
            ),
        results.len() > desired_size ==> forall|i: int|
            0 <= i < results.len() ==> narrow_front_spec(results, desired_size)[0].size <= (
            #[trigger] results[i]).size,
        forall|i: int|
            0 <= i < results.len() ==> keeps_as_accurate(
                narrow_front_spec(results, desired_size),
                #[trigger] results[i],
            ),
{
    let out = narrow_front_spec(results, desired_size);
    if results.len() <= desired_size {
        assert forall|i: int| 0 <= i < results.len() implies keeps_as_accurate(
            out,
            #[trigger] results[i],
        ) by {
            assert(out[i].average_log2_error <= results[i].average_log2_error);
        }
    } else {
        lemma_sorted_by_size(results);
        let sorted = sorted_by_size(results);
        let tail = sorted.drop_first();
        let removals = (results.len() - desired_size) as nat;
        lemma_narrowed_tail_members(tail, removals);
        let kept = narrowed_tail(tail, removals);
        assert(out[0] == sorted[0]);
        assert(out.to_multiset().subset_of(results.to_multiset())) by {
            broadcast use vstd::multiset::group_multiset_axioms;

            lemma_multiset_commutative(seq![sorted[0]], kept);
            lemma_multiset_commutative(seq![sorted[0]], tail);
            assert(seq![sorted[0]] + tail =~= sorted);
        }
        assert forall|j: int| 0 <= j < out.len() implies results.contains(#[trigger] out[j]) by {
            if j > 0 {
                assert(out[j] == kept[j - 1]);
                assert(tail.contains(kept[j - 1]));
                let k = choose|k: int| 0 <= k < tail.len() && tail[k] == kept[j - 1];
                assert(sorted[k + 1] == out[j]);
            }
        }
        assert forall|i: int| 0 <= i < results.len() implies out[0].size <= (
        #[trigger] results[i]).size by {
            assert(sorted.contains(results[i]));
            let k = choose|k: int| 0 <= k < sorted.len() && sorted[k] == results[i];
            assert(sorted[0].size <= sorted[k].size);
        }
        assert forall|i: int| 0 <= i < results.len() implies keeps_as_accurate(
            out,
            #[trigger] results[i],
        ) by {
            assert(sorted.contains(results[i]));
            let k = choose|k: int| 0 <= k < sorted.len() && sorted[k] == results[i];
            if k == 0 {
                assert(out[0].average_log2_error <= results[i].average_log2_error);
            } else {
                assert(tail[k - 1] == sorted[k]);
                lemma_narrowed_tail_accuracy(tail, removals, k - 1);
                let j = choose|j: int|
                    0 <= j < kept.len() && (#[trigger] kept[j]).average_log2_error <= tail[k
                        - 1].average_log2_error;
                assert(out[j + 1] == kept[j]);
                assert(out[j + 1].average_log2_error <= results[i].average_log2_error);
            }
        }
    }
}

} // verus!
