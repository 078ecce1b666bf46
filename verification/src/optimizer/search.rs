//! Training the configurations and keeping the frontier.
use vstd::prelude::*;
use crate::codegen::{layers_size, nodes_size, rmi_size};
use crate::data::RMITrainingData;
use crate::engine::Node;
use crate::laws::{lemma_deterministic, node_views};
use crate::models::clamp_u64;
use crate::optimizer::configs::{
    config_views, first_phase_configs, first_phase_spec, second_phase_configs, second_phase_spec,
    text_less_exec,
};
use crate::optimizer::profile::OptimizerProfile;
use crate::optimizer::{
    by_accuracy, lemma_insert_at, more_accurate, narrow_front, narrow_front_spec, pareto_front,
    pareto_front_spec, sorted_by_accuracy, stat_views, RMIStatistics, Stats, LOG2_ERROR_ONE,
};
use crate::plan::Plan;
use crate::rmi::TrainedRMI;
use crate::train::{train, train_outcome};

verus! {

/// The mean of the errors' whole bits over `n` pairs, in units of `2^-32`
/// of a bit; zero where there are no pairs.
pub open spec fn mean_log2_fixed(total: u128, n: usize) -> u64 {
    if n == 0 {
        0
    } else {
        clamp_u64((total * LOG2_ERROR_ONE) / (n as int))
    }
}

/// What the optimizer keeps of a trained index.
pub open spec fn stats_of(rmi: TrainedRMI) -> Stats {
    Stats {
        models: rmi.models@,
        branching_factor: rmi.branching_factor,
        average_log2_error: mean_log2_fixed(rmi.model_total_log2_error, rmi.num_data_rows),
        max_log2_error: rmi.model_max_log2_error,
        size: clamp_u64(layers_size(rmi.rmi@) as int),
    }
}

impl RMIStatistics {
    pub fn from_trained(rmi: &TrainedRMI) -> (r: RMIStatistics)
        ensures
            r@ == stats_of(*rmi),
    {
        let average_log2_error: u64 = if rmi.num_data_rows == 0 {
            0
        } else {
            match rmi.model_total_log2_error.checked_mul(LOG2_ERROR_ONE as u128) {
                Some(scaled) => {
                    let mean: u128 = scaled / (rmi.num_data_rows as u128);
                    if mean > u64::MAX as u128 {
                        u64::MAX
                    } else {
                        mean as u64
                    }
                },
                None => {
                    proof {
                        let t = rmi.model_total_log2_error as int;
                        let n = rmi.num_data_rows as int;
                        assert((t * LOG2_ERROR_ONE) / n > u64::MAX) by (nonlinear_arith)
                            requires
                                t * LOG2_ERROR_ONE > u128::MAX,
                                0 < n <= u64::MAX,
                        ;
                    }
                    u64::MAX
                },
            }
        };
        RMIStatistics {
            average_log2_error,
            max_log2_error: rmi.model_max_log2_error,
            size: rmi_size(rmi),
            models: rmi.models.clone(),
            branching_factor: rmi.branching_factor,
        }
    }
}

/// An index that the plan describes.
pub open spec fn trained_for(plan: Plan) -> TrainedRMI {
    choose|rmi: TrainedRMI| rmi.trained_by(plan)
}

/// The statistics of the index that the plan describes, under the given
/// layer list.
pub open spec fn stats_for(plan: Plan, models: Seq<char>) -> Stats {
    let rmi = trained_for(plan);
    Stats {
        models,
        branching_factor: plan.b,
        average_log2_error: mean_log2_fixed(rmi.model_total_log2_error, rmi.num_data_rows),
        max_log2_error: rmi.model_max_log2_error,
        size: clamp_u64(layers_size(rmi.rmi@) as int),
    }
}

/// The statistics of the configurations that can be trained, in the order
/// of the configurations; one that cannot be trained is left out.
pub open spec fn measured(pairs: Seq<(u64, usize)>, configs: Seq<(Seq<char>, u64)>) -> Seq<Stats>
    decreases configs.len(),
{
    if configs.len() == 0 {
        Seq::empty()
    } else {
        let head = measured(pairs, configs.drop_last());
        let config = configs.last();
        match train_outcome(pairs, config.0, config.1) {
            Ok(plan) => head.push(stats_for(plan, config.0)),
            Err(_) => head,
        }
    }
}

proof fn lemma_same_nodes_size(a: Seq<Node>, b: Seq<Node>)
    requires
        node_views(a) == node_views(b),
        a.len() == b.len(),
    ensures
        nodes_size(a) == nodes_size(b),
    decreases a.len(),
{
    if a.len() > 0 {
        assert(node_views(a.drop_last()) =~= node_views(b.drop_last())) by {
            assert forall|k: int| 0 <= k < a.len() - 1 implies node_views(a.drop_last())[k]
                == node_views(b.drop_last())[k] by {
                assert(node_views(a)[k] == a[k]@);
                assert(node_views(b)[k] == b[k]@);
            }
        }
        lemma_same_nodes_size(a.drop_last(), b.drop_last());
        assert(node_views(a)[a.len() - 1] == a.last()@);
        assert(node_views(b)[b.len() - 1] == b.last()@);
    }
}

proof fn lemma_same_layers_size(a: Seq<Vec<Node>>, b: Seq<Vec<Node>>, upto: int)
    requires
        a.len() == b.len(),
        0 <= upto <= a.len(),
        forall|l: int|
            0 <= l < a.len() ==> node_views((#[trigger] a[l])@) == node_views(b[l]@) && a[l]@.len()
                == b[l]@.len(),
    ensures
        layers_size(a.take(upto)) == layers_size(b.take(upto)),
    decreases upto,
{
    if upto > 0 {
        lemma_same_layers_size(a, b, upto - 1);
        assert(a.take(upto).drop_last() =~= a.take(upto - 1));
        assert(b.take(upto).drop_last() =~= b.take(upto - 1));
        assert(a.take(upto).last() == a[upto - 1]);
        assert(b.take(upto).last() == b[upto - 1]);
        lemma_same_nodes_size(a[upto - 1]@, b[upto - 1]@);
    }
}

/// The statistics of an index are those of the plan that trained it,
/// under the index's layer list: any two indexes of one plan agree in
/// them.
pub proof fn lemma_stats_of_plan(one: TrainedRMI, plan: Plan)
    requires
        one.trained_by(plan),
        plan.kinds.len() >= 1,
    ensures
        stats_of(one) == stats_for(plan, one.models@),
{
    let other = trained_for(plan);
    lemma_deterministic(one, other, plan);
    assert forall|l: int| 0 <= l < one.rmi@.len() implies node_views((#[trigger] one.rmi@[l])@)
        == node_views(other.rmi@[l]@) && one.rmi@[l]@.len() == other.rmi@[l]@.len() by {
        assert(node_views(one.rmi@[l]@).len() == one.rmi@[l]@.len());
        assert(node_views(other.rmi@[l]@).len() == other.rmi@[l]@.len());
    }
    lemma_same_layers_size(one.rmi@, other.rmi@, one.rmi@.len() as int);
    assert(one.rmi@.take(one.rmi@.len() as int) =~= one.rmi@);
    assert(other.rmi@.take(other.rmi@.len() as int) =~= other.rmi@);
}

/// Trains each configuration in turn and keeps the statistics of those
/// that can be trained.
pub fn measure_rmis(data: &RMITrainingData, configs: &[(String, u64)]) -> (results: Vec<
    RMIStatistics,
>)
    ensures
        stat_views(results@) == measured(data@, config_views(configs@)),
{
    let ghost all = config_views(configs@);
    let mut results: Vec<RMIStatistics> = Vec::new();
    let mut i: usize = 0;
    proof {
        assert(all.take(0) =~= Seq::empty());
        assert(stat_views(results@) =~= Seq::empty());
    }
    while i < configs.len()
        invariant
            i <= configs@.len(),
            all == config_views(configs@),
            stat_views(results@) == measured(data@, all.take(i as int)),
        decreases configs@.len() - i,
    {
        proof {
            let head = all.take(i + 1);
            assert(head.drop_last() =~= all.take(i as int));
            assert(head.last() == (configs@[i as int].0@, configs@[i as int].1));
        }
        match train(data, configs[i].0.as_str(), configs[i].1) {
            Ok(rmi) => {
                let stats = RMIStatistics::from_trained(&rmi);
                proof {
                    let plan = train_outcome(data@, configs@[i as int].0@, configs@[i as int].1)->Ok_0;
                    assert(rmi.trained_by(plan) && rmi.models@ == configs@[i as int].0@);
                    lemma_plan_has_layers(data@, configs@[i as int].0@, configs@[i as int].1);
                    lemma_stats_of_plan(rmi, plan);
                    assert(stat_views(results@.push(stats)) =~= stat_views(results@).push(stats@));
                }
                results.push(stats);
            },
            Err(_) => {},
        }
        i += 1;
    }
    proof {
        assert(all.take(configs@.len() as int) =~= all);
    }
    results
}

/// A plan that `train` carries out has at least one layer, and the
/// branching factor that was asked for.
pub proof fn lemma_plan_has_layers(pairs: Seq<(u64, usize)>, models: Seq<char>, b: u64)
    requires
        train_outcome(pairs, models, b) is Ok,
    ensures
        train_outcome(pairs, models, b)->Ok_0.kinds.len() >= 1,
        train_outcome(pairs, models, b)->Ok_0.b == b,
{
    crate::layers::lemma_split_nonempty(models);
}

/// A member is the statistics of a configuration that can be trained: of
/// its own layer list at its own branching factor.
pub open spec fn was_measured(x: Stats, pairs: Seq<(u64, usize)>) -> bool {
    train_outcome(pairs, x.models, x.branching_factor) matches Ok(plan) && x == stats_for(
        plan,
        x.models,
    )
}

/// Everything measured is the statistics of a configuration that can be
/// trained.
pub proof fn lemma_measured(pairs: Seq<(u64, usize)>, configs: Seq<(Seq<char>, u64)>)
    ensures
        forall|i: int|
            0 <= i < measured(pairs, configs).len() ==> was_measured(
                #[trigger] measured(pairs, configs)[i],
                pairs,
            ),
    decreases configs.len(),
{
    if configs.len() > 0 {
        lemma_measured(pairs, configs.drop_last());
        let config = configs.last();
        let head = measured(pairs, configs.drop_last());
        let out = measured(pairs, configs);
        if train_outcome(pairs, config.0, config.1) is Ok {
            lemma_plan_has_layers(pairs, config.0, config.1);
            let plan = train_outcome(pairs, config.0, config.1)->Ok_0;
            assert(out == head.push(stats_for(plan, config.0)));
            assert(was_measured(stats_for(plan, config.0), pairs));
            assert forall|i: int| 0 <= i < out.len() implies was_measured(#[trigger] out[i], pairs) by {
                if i < head.len() {
                    assert(out[i] == head[i]);
                }
            }
        } else {
            assert(out == head);
        }
    }
}

/// Every member of what the search gives is the statistics of a
/// configuration that can be trained, and the mean errors of the members
/// stand in ascending order.
pub proof fn lemma_search(pairs: Seq<(u64, usize)>, restrict: nat, profile: OptimizerProfile)
    requires
        restrict >= 2,
    ensures
        forall|i: int|
            0 <= i < search_spec(pairs, restrict, profile).len() ==> was_measured(
                #[trigger] search_spec(pairs, restrict, profile)[i],
                pairs,
            ),
        forall|i: int, j: int|
            0 <= i <= j < search_spec(pairs, restrict, profile).len() ==> (#[trigger] search_spec(
                pairs,
                restrict,
                profile,
            )[i]).average_log2_error <= (#[trigger] search_spec(
                pairs,
                restrict,
                profile,
            )[j]).average_log2_error,
        search_spec(pairs, restrict, profile).len() <= restrict,
{
    let first = measured(pairs, first_phase_spec(profile));
    let second = measured(pairs, second_phase_spec(first, profile));
    let all = first + second;
    let front = pareto_front_spec(all);
    let narrowed = narrow_front_spec(front, restrict);
    let out = sorted_by_accuracy(narrowed);
    lemma_measured(pairs, first_phase_spec(profile));
    lemma_measured(pairs, second_phase_spec(first, profile));
    crate::optimizer::lemma_pareto_front(all);
    crate::optimizer::lemma_narrow_front(front, restrict);
    crate::optimizer::lemma_sorted_by_accuracy(narrowed);
    assert forall|i: int| 0 <= i < out.len() implies was_measured(#[trigger] out[i], pairs) by {
        assert(narrowed.contains(out[i]));
        let a = choose|a: int| 0 <= a < narrowed.len() && narrowed[a] == out[i];
        assert(front.contains(narrowed[a]));
        let b = choose|b: int| 0 <= b < front.len() && front[b] == out[i];
        assert(all.contains(front[b]));
        let c = choose|c: int| 0 <= c < all.len() && all[c] == out[i];
        if c < first.len() {
            assert(all[c] == first[c]);
        } else {
            assert(all[c] == second[c - first.len()]);
        }
    }
}

fn more_accurate_exec(a: &RMIStatistics, b: &RMIStatistics) -> (r: bool)
    ensures
        r == more_accurate(a@, b@),
{
    if a.average_log2_error != b.average_log2_error {
        return a.average_log2_error < b.average_log2_error;
    }
    if a.size != b.size {
        return a.size < b.size;
    }
    text_less_exec(a.models.as_str(), b.models.as_str())
}

fn sort_by_accuracy(results: Vec<RMIStatistics>) -> (out: Vec<RMIStatistics>)
    ensures
        stat_views(out@) == sorted_by_accuracy(stat_views(results@)),
{
    let ghost all = stat_views(results@);
    let mut out: Vec<RMIStatistics> = Vec::new();
    let mut i: usize = 0;
    proof {
        assert(all.take(0) =~= Seq::empty());
        assert(stat_views(out@) =~= Seq::empty());
    }
    while i < results.len()
        invariant
            i <= results@.len(),
            all == stat_views(results@),
            stat_views(out@) == sorted_by_accuracy(all.take(i as int)),
        decreases results@.len() - i,
    {
        let x = results[i].clone();
        let ghost sorted = stat_views(out@);
        let mut j: usize = out.len();
        while j > 0 && more_accurate_exec(&x, &out[j - 1])
            invariant
                j <= out@.len(),
                sorted == stat_views(out@),
                forall|k: int| j <= k < sorted.len() ==> !by_accuracy()(x@, #[trigger] sorted[k]),
            decreases j,
        {
            assert(sorted[j - 1] == out@[j - 1]@);
            j -= 1;
        }
        proof {
            if j > 0 {
                assert(sorted[j - 1] == out@[j - 1]@);
            }
            lemma_insert_at(sorted, x@, j as int, by_accuracy());
            let t = all.take(i + 1);
            assert(t.drop_last() =~= all.take(i as int));
            assert(t.last() == x@);
            assert(stat_views(out@.insert(j as int, x)) =~= sorted.insert(j as int, x@));
        }
        out.insert(j, x);
        i += 1;
    }
    proof {
        assert(all.take(results@.len() as int) =~= all);
    }
    out
}

/// The frontier of the results, narrowed to at most `restrict` members, in
/// the order of accuracy.
pub open spec fn front_of_spec(results: Seq<Stats>, restrict: nat) -> Seq<Stats> {
    sorted_by_accuracy(narrow_front_spec(pareto_front_spec(results), restrict))
}

/// What the search gives: the statistics of both phases, cut down to their
/// frontier, narrowed to at most `restrict` members, in the order of
/// accuracy.
pub open spec fn search_spec(pairs: Seq<(u64, usize)>, restrict: nat, profile: OptimizerProfile) -> Seq<
    Stats,
> {
    let first = measured(pairs, first_phase_spec(profile));
    let second = measured(pairs, second_phase_spec(first, profile));
    front_of_spec(first + second, restrict)
}

/// The shape of a narrowed frontier in the order of accuracy: it has
/// `restrict` members wherever the frontier has as many; no member
/// dominates another; the mean errors ascend and the sizes descend; and of
/// two members with different mean errors the more accurate is strictly the
/// larger.
pub proof fn lemma_front_shape(results: Seq<Stats>, restrict: nat)
    requires
        restrict >= 2,
    ensures
        pareto_front_spec(results).len() >= restrict ==> front_of_spec(results, restrict).len()
            == restrict,
        pareto_front_spec(results).len() <= restrict ==> front_of_spec(results, restrict).len()
            == pareto_front_spec(results).len(),
        forall|i: int, j: int|
            0 <= i < front_of_spec(results, restrict).len() && 0 <= j < front_of_spec(
                results,
                restrict,
            ).len() ==> !(#[trigger] front_of_spec(results, restrict)[i]).dominated_by(
                #[trigger] front_of_spec(results, restrict)[j],
            ),
        forall|i: int, j: int|
            0 <= i <= j < front_of_spec(results, restrict).len() ==> {
                let a = #[trigger] front_of_spec(results, restrict)[i];
                let b = #[trigger] front_of_spec(results, restrict)[j];
                &&& a.average_log2_error <= b.average_log2_error
                &&& a.size >= b.size
                &&& a.average_log2_error < b.average_log2_error ==> a.size > b.size
            },
{
    let front = pareto_front_spec(results);
    let narrowed = narrow_front_spec(front, restrict);
    let out = front_of_spec(results, restrict);
    assert(out.len() == narrowed.len() && (front.len() >= restrict ==> narrowed.len() == restrict)
        && (front.len() <= restrict ==> narrowed == front)) by {
        crate::optimizer::lemma_narrow_front(front, restrict);
        crate::optimizer::lemma_sorted_keeps(narrowed, by_accuracy());
        narrowed.to_multiset_ensures();
        out.to_multiset_ensures();
    }
    assert forall|i: int| 0 <= i < out.len() implies front.contains(#[trigger] out[i]) by {
        lemma_front_member(results, restrict, i);
    }
    assert forall|i: int, j: int| 0 <= i < out.len() && 0 <= j < out.len() implies !(
    #[trigger] out[i]).dominated_by(#[trigger] out[j]) by {
        lemma_front_apart(results, out[i], out[j]);
    }
    assert forall|i: int, j: int| 0 <= i <= j < out.len() implies {
        let a = #[trigger] out[i];
        let b = #[trigger] out[j];
        &&& a.average_log2_error <= b.average_log2_error
        &&& a.size >= b.size
        &&& a.average_log2_error < b.average_log2_error ==> a.size > b.size
    } by {
        assert(!out[j].dominated_by(out[i]));
        assert(!more_accurate(out[j], out[i])) by {
            crate::optimizer::lemma_sorted_by_accuracy(narrowed);
        }
    }
}

/// Every member of a narrowed frontier is a member of the frontier.
proof fn lemma_front_member(results: Seq<Stats>, restrict: nat, i: int)
    requires
        restrict >= 2,
        0 <= i < front_of_spec(results, restrict).len(),
    ensures
        pareto_front_spec(results).contains(front_of_spec(results, restrict)[i]),
{
    let front = pareto_front_spec(results);
    let narrowed = narrow_front_spec(front, restrict);
    let out = front_of_spec(results, restrict);
    crate::optimizer::lemma_sorted_by_accuracy(narrowed);
    assert(narrowed.contains(out[i]));
    let a = choose|a: int| 0 <= a < narrowed.len() && narrowed[a] == out[i];
    assert(front.contains(narrowed[a])) by {
        crate::optimizer::lemma_narrow_front(front, restrict);
    }
}

/// No member of a frontier dominates another.
proof fn lemma_front_apart(results: Seq<Stats>, x: Stats, y: Stats)
    requires
        pareto_front_spec(results).contains(x),
        pareto_front_spec(results).contains(y),
    ensures
        !x.dominated_by(y),
{
    let front = pareto_front_spec(results);
    crate::optimizer::lemma_pareto_front(results);
    let c = choose|c: int| 0 <= c < front.len() && front[c] == x;
    let d = choose|d: int| 0 <= d < front.len() && front[d] == y;
    assert(!front[c].dominated_by(front[d]));
}

/// Cuts the results down to their frontier, narrows it to at most
/// `restrict` members, and puts it in the order of accuracy.
pub fn front_of(results: &[RMIStatistics], restrict: usize) -> (final_front: Vec<RMIStatistics>)
    requires
        restrict >= 2,
    ensures
        stat_views(final_front@) == front_of_spec(stat_views(results@), restrict as nat),
{
    let front = pareto_front(results);
    let narrowed = narrow_front(front.as_slice(), restrict);
    sort_by_accuracy(narrowed)
}

/// Searches for the configurations on the frontier of size and accuracy.
///
/// The first phase trains every pair of models at every fifth branching
/// factor. The second phase trains the layer lists on the frontier of the
/// first at the branching factors that are left. Of all the results, the
/// frontier is kept, narrowed to at most `restrict` members, and put in the
/// order of accuracy.
pub fn find_pareto_efficient_configs(
    data: &RMITrainingData,
    restrict: usize,
    profile: OptimizerProfile,
) -> (final_front: Vec<RMIStatistics>)
    requires
        restrict >= 2,
    ensures
        stat_views(final_front@) == search_spec(data@, restrict as nat, profile),
{
    let initial_configs = first_phase_configs(profile);
    let first_phase_results = measure_rmis(data, initial_configs.as_slice());
    let next_configs = second_phase_configs(first_phase_results.as_slice(), profile);
    let second_phase_results = measure_rmis(data, next_configs.as_slice());
    let ghost first = stat_views(first_phase_results@);
    let ghost second = stat_views(second_phase_results@);
    let mut all = first_phase_results;
    let mut i: usize = 0;
    while i < second_phase_results.len()
        invariant
            i <= second_phase_results@.len(),
            second == stat_views(second_phase_results@),
            stat_views(all@) == first + second.take(i as int),
        decreases second_phase_results@.len() - i,
    {
        let x = second_phase_results[i].clone();
        proof {
            assert(second.take(i + 1) =~= second.take(i as int).push(x@));
            assert(stat_views(all@.push(x)) =~= stat_views(all@).push(x@));
            assert(first + second.take(i + 1) =~= (first + second.take(i as int)).push(x@));
        }
        all.push(x);
        i += 1;
    }
    proof {
        assert(second.take(second_phase_results@.len() as int) =~= second);
    }
    front_of(all.as_slice(), restrict)
}

} // verus!
