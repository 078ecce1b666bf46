//! What holds of every trained index.
use vstd::prelude::*;
use crate::engine::{excess, layer_matches, node_matches, shortfall, Node};
use crate::fit::max_over;
use crate::models::{FormView, ModelKind};
use crate::plan::{child_index, run_end, run_start, run_width, runs_from, Plan, TrainMode};
use crate::layers::{lemma_join_split, split_commas};
use crate::rmi::{max_radii, TrainedRMI};
use crate::train::{train_outcome, variant_gives};
use crate::runs::{lemma_run_of, lemma_runs_apart, lemma_runs_cover, lemma_runs_from, runs_in_order};

verus! {

/// The number of pairs in the runs of the nodes, taken together.
pub open spec fn pairs_in(nodes: Seq<Node>) -> int
    decreases nodes.len(),
{
    if nodes.len() == 0 {
        0
    } else {
        pairs_in(nodes.drop_last()) + (nodes.last().end - nodes.last().start)
    }
}

/// Some node's run holds pair `i`.
pub open spec fn holds_pair(nodes: Seq<Node>, i: int) -> bool {
    exists|k: int| 0 <= k < nodes.len() && (#[trigger] nodes[k]).start <= i < nodes[k].end
}

/// What a node holds, as a mathematical value.
pub ghost struct NodeView {
    pub slot: u64,
    pub start: usize,
    pub end: usize,
    pub first_position: u64,
    pub last_position: u64,
    pub kind: ModelKind,
    pub form: FormView,
    pub left_radius: u64,
    pub right_radius: u64,
}

impl View for Node {
    type V = NodeView;

    open spec fn view(&self) -> NodeView {
        NodeView {
            slot: self.slot,
            start: self.start,
            end: self.end,
            first_position: self.first_position,
            last_position: self.last_position,
            kind: self.model.kind,
            form: self.model.form@,
            left_radius: self.left_radius,
            right_radius: self.right_radius,
        }
    }
}

/// The views of the nodes of a layer.
pub open spec fn node_views(nodes: Seq<Node>) -> Seq<NodeView> {
    Seq::new(nodes.len(), |k: int| nodes[k]@)
}

proof fn lemma_pairs_in(nodes: Seq<Node>, upto: int)
    requires
        0 <= upto <= nodes.len(),
        forall|k: int| 0 <= k < nodes.len() ==> (#[trigger] nodes[k]).start < nodes[k].end,
        forall|j: int, k: int|
            0 <= j && k == j + 1 && k < nodes.len() ==> (#[trigger] nodes[j]).end == (
            #[trigger] nodes[k]).start,
    ensures
        pairs_in(nodes.take(upto)) == if upto == 0 {
            0
        } else {
            nodes[upto - 1].end - nodes[0].start
        },
    decreases upto,
{
    if upto > 0 {
        lemma_pairs_in(nodes, upto - 1);
        assert(nodes.take(upto).drop_last() =~= nodes.take(upto - 1));
        assert(nodes.take(upto).last() == nodes[upto - 1]);
        if upto > 1 {
            assert(nodes[upto - 2].end == nodes[upto - 1].start);
        }
    }
}

/// In every layer of a trained index the runs of the nodes hold all the
/// pairs, each pair once: the runs lie one behind the other from the first
/// pair to the last, and their sizes add up to the number of pairs.
pub proof fn lemma_coverage(rmi: TrainedRMI, plan: Plan, layer: int)
    requires
        rmi.built_by(plan),
        0 <= layer < plan.kinds.len(),
    ensures
        pairs_in(rmi.rmi@[layer]@) == plan.n(),
        forall|i: int| 0 <= i < plan.n() ==> #[trigger] holds_pair(rmi.rmi@[layer]@, i),
        forall|j: int, k: int|
            0 <= j < k < rmi.rmi@[layer]@.len() ==> (#[trigger] rmi.rmi@[layer]@[j]).end <= (
            #[trigger] rmi.rmi@[layer]@[k]).start,
{
    let nodes = rmi.rmi@[layer]@;
    let slots = plan.slots(layer as nat);
    let runs = runs_from(slots, 0);
    assert(layer_matches(nodes, plan, layer as nat));
    assert(slots.len() == plan.n());
    lemma_runs_from(slots, 0);
    assert forall|k: int| 0 <= k < nodes.len() implies (#[trigger] nodes[k]).start == runs[k].0
        && nodes[k].end == runs[k].1 by {
        assert(node_matches(nodes[k], plan, layer as nat, runs[k]));
    }
    assert forall|j: int, k: int| 0 <= j && k == j + 1 && k < nodes.len() implies (
    #[trigger] nodes[j]).end == (#[trigger] nodes[k]).start by {
        assert(runs[j].1 == runs[k].0);
    }
    assert forall|k: int| 0 <= k < nodes.len() implies (#[trigger] nodes[k]).start
        < nodes[k].end by {
        assert(runs[k].0 < runs[k].1);
    }
    lemma_pairs_in(nodes, nodes.len() as int);
    assert(nodes.take(nodes.len() as int) =~= nodes);
    assert forall|i: int| 0 <= i < plan.n() implies #[trigger] holds_pair(nodes, i) by {
        let k = lemma_runs_cover(runs, slots, 0, i, runs.len() - 1);
        assert(nodes[k].start <= i < nodes[k].end);
    }
    assert forall|j: int, k: int| 0 <= j < k < nodes.len() implies (#[trigger] nodes[j]).end <= (
    #[trigger] nodes[k]).start by {
        lemma_runs_apart(runs, slots, 0, j, k);
    }
}

/// The largest value of a term over a range is at least each value in it.
pub proof fn lemma_max_over_bounds(lo: int, hi: int, f: spec_fn(int) -> nat, i: int)
    requires
        lo <= i < hi,
    ensures
        f(i) <= max_over(lo, hi, f),
    decreases hi - lo,
{
    if i < hi - 1 {
        lemma_max_over_bounds(lo, hi - 1, f, i);
    }
}

/// For every node of a trained index and every pair of its run, the pair's
/// position lies no more than the left radius below what the node's model
/// predicts for the pair's key, and no more than the right radius above it.
pub proof fn lemma_radius_sound(rmi: TrainedRMI, plan: Plan, layer: int, k: int, i: int)
    requires
        rmi.built_by(plan),
        0 <= layer < plan.kinds.len(),
        0 <= k < rmi.rmi@[layer]@.len(),
        rmi.rmi@[layer]@[k].start <= i < rmi.rmi@[layer]@[k].end,
    ensures
        ({
            let node = rmi.rmi@[layer]@[k];
            let p = node.model.form@.predict(plan.xs[i]);
            &&& p - node.left_radius <= plan.ys[i] <= p + node.right_radius
            &&& p == plan.predictions(layer as nat)[i]
        }),
{
    let nodes = rmi.rmi@[layer]@;
    let node = nodes[k];
    let slots = plan.slots(layer as nat);
    let runs = runs_from(slots, 0);
    assert(layer_matches(nodes, plan, layer as nat));
    assert(node_matches(nodes[k], plan, layer as nat, runs[k]));
    assert(slots.len() == plan.n());
    lemma_runs_from(slots, 0);
    let a = runs[k].0;
    lemma_run_of(runs, slots, 0, k, i);
    lemma_run_of(runs, slots, 0, k, a);
    let preds = plan.predictions(layer as nat);
    assert(plan.models(layer as nat)[i] == plan.models(layer as nat)[a]);
    lemma_max_over_bounds(runs[k].0, runs[k].1, excess(preds, plan.ys), i);
    lemma_max_over_bounds(runs[k].0, runs[k].1, shortfall(preds, plan.ys), i);
}

/// The larger radius of a leaf, which the index keeps for it, bounds the
/// distance between the prediction and the position for every pair of the
/// leaf.
pub proof fn lemma_max_l1_sound(rmi: TrainedRMI, plan: Plan, k: int, i: int)
    requires
        rmi.built_by(plan),
        plan.kinds.len() >= 1,
        0 <= k < rmi.rmi@[plan.last() as int]@.len(),
        rmi.rmi@[plan.last() as int]@[k].start <= i < rmi.rmi@[plan.last() as int]@[k].end,
    ensures
        ({
            let p = rmi.rmi@[plan.last() as int]@[k].model.form@.predict(plan.xs[i]);
            p - rmi.last_layer_max_l1s@[k] <= plan.ys[i] <= p + rmi.last_layer_max_l1s@[k]
        }),
{
    lemma_radius_sound(rmi, plan, plan.last() as int, k, i);
    assert(rmi.last_layer_max_l1s@[k] == max_radii(rmi.rmi@[plan.last() as int]@)[k]);
}

/// The child that a prediction picks at the root of `n` pairs with the
/// positions `0` to `n - 1` is `p * b / n` rounded down, kept between `0`
/// and `b - 1`.
pub proof fn lemma_child_index_at_root(p: u64, b: u64, n: nat)
    requires
        b >= 1,
        n >= 1,
    ensures
        child_index(p, b, 0, n) == if (p * b) / (n as int) >= b {
            b - 1
        } else {
            (p * b) / (n as int)
        },
{
    if p == 0 {
        assert((0 * b) / (n as int) == 0) by (nonlinear_arith)
            requires
                n >= 1,
        ;
    }
}

/// The trainer sends every pair to the child that the bucket mapping
/// names: the slot of the node that holds a pair is the slot of the node
/// above it times the branching factor, plus the child index of what that
/// node predicts for the pair's key.
pub proof fn lemma_bucket_mapping(rmi: TrainedRMI, plan: Plan, layer: int, above: int, k: int, i: int)
    requires
        rmi.built_by(plan),
        plan.mode != TrainMode::Unbucketed,
        0 <= layer,
        layer + 1 < plan.kinds.len(),
        0 <= above < rmi.rmi@[layer]@.len(),
        0 <= k < rmi.rmi@[layer + 1]@.len(),
        rmi.rmi@[layer]@[above].start <= i < rmi.rmi@[layer]@[above].end,
        rmi.rmi@[layer + 1]@[k].start <= i < rmi.rmi@[layer + 1]@[k].end,
    ensures
        ({
            let parent = rmi.rmi@[layer]@[above];
            let child = rmi.rmi@[layer + 1]@[k];
            child.slot == parent.slot * plan.b + child_index(
                parent.model.form@.predict(plan.xs[i]),
                plan.b,
                plan.ys[parent.start as int],
                run_width(plan.ys, parent.start as int, parent.end as int),
            )
        }),
{
    let upper = plan.slots(layer as nat);
    let lower = plan.slots((layer + 1) as nat);
    let parent = rmi.rmi@[layer]@[above];
    let child = rmi.rmi@[layer + 1]@[k];
    assert(layer_matches(rmi.rmi@[layer]@, plan, layer as nat));
    assert(layer_matches(rmi.rmi@[layer + 1]@, plan, (layer + 1) as nat));
    assert(node_matches(parent, plan, layer as nat, runs_from(upper, 0)[above]));
    assert(node_matches(child, plan, (layer + 1) as nat, runs_from(lower, 0)[k]));
    assert(upper.len() == plan.n());
    assert(lower.len() == plan.n());
    lemma_runs_from(upper, 0);
    lemma_runs_from(lower, 0);
    let a = parent.start as int;
    let c = child.start as int;
    let ur = runs_from(upper, 0);
    let lr = runs_from(lower, 0);
    lemma_run_of(ur, upper, 0, above, i);
    lemma_run_of(ur, upper, 0, above, a);
    lemma_run_of(lr, lower, 0, k, i);
    lemma_run_of(lr, lower, 0, k, c);
    crate::runs::lemma_run_end_shared(lower, c, i);
    crate::runs::lemma_run_end_shared(upper, a, i);
    assert(lower[i] == lower[c]);
    assert(upper[i] == upper[a]);
    assert(plan.models(layer as nat)[i] == plan.models(layer as nat)[a]);
}

/// Two indexes trained by one plan agree in every measure of error, in
/// every radius, and in every node of every layer.
pub proof fn lemma_deterministic(one: TrainedRMI, other: TrainedRMI, plan: Plan)
    requires
        one.trained_by(plan),
        other.trained_by(plan),
        plan.kinds.len() >= 1,
    ensures
        one.totals() == other.totals(),
        one.num_rmi_rows == other.num_rmi_rows,
        one.num_data_rows == other.num_data_rows,
        one.last_layer_max_l1s@ == other.last_layer_max_l1s@,
        one.third_layer_max_l1s@ == other.third_layer_max_l1s@,
        one.rmi@.len() == other.rmi@.len(),
        forall|l: int|
            0 <= l < one.rmi@.len() ==> node_views((#[trigger] one.rmi@[l])@) == node_views(
                other.rmi@[l]@,
            ),
{
    assert forall|l: int| 0 <= l < one.rmi@.len() implies node_views((#[trigger] one.rmi@[l])@)
        == node_views(other.rmi@[l]@) by {
        lemma_same_layer(one.rmi@[l]@, other.rmi@[l]@, plan, l as nat);
    }
    let last = plan.last() as int;
    lemma_same_layer(one.rmi@[last]@, other.rmi@[last]@, plan, last as nat);
    lemma_same_radii(one.rmi@[last]@, other.rmi@[last]@);
    if plan.kinds.len() >= 3 {
        lemma_same_layer(one.rmi@[last - 1]@, other.rmi@[last - 1]@, plan, (last - 1) as nat);
        lemma_same_radii(one.rmi@[last - 1]@, other.rmi@[last - 1]@);
    }
}

proof fn lemma_same_layer(a: Seq<Node>, b: Seq<Node>, plan: Plan, layer: nat)
    requires
        layer_matches(a, plan, layer),
        layer_matches(b, plan, layer),
    ensures
        node_views(a) == node_views(b),
        a.len() == b.len(),
{
    let runs = runs_from(plan.slots(layer), 0);
    assert forall|k: int| 0 <= k < a.len() implies a[k]@ == b[k]@ by {
        assert(node_matches(a[k], plan, layer, runs[k]));
        assert(node_matches(b[k], plan, layer, runs[k]));
    }
    assert(node_views(a) =~= node_views(b));
}

proof fn lemma_same_radii(a: Seq<Node>, b: Seq<Node>)
    requires
        node_views(a) == node_views(b),
        a.len() == b.len(),
    ensures
        max_radii(a) == max_radii(b),
{
    assert forall|k: int| 0 <= k < a.len() implies max_radii(a)[k] == max_radii(b)[k] by {
        assert(node_views(a)[k] == a[k]@);
        assert(node_views(b)[k] == b[k]@);
    }
    assert(max_radii(a) =~= max_radii(b));
}

/// Two indexes agree in everything but their build time.
pub open spec fn same_index(one: TrainedRMI, other: TrainedRMI) -> bool {
    &&& one.totals() == other.totals()
    &&& one.num_rmi_rows == other.num_rmi_rows
    &&& one.num_data_rows == other.num_data_rows
    &&& one.last_layer_max_l1s@ == other.last_layer_max_l1s@
    &&& one.third_layer_max_l1s@ == other.third_layer_max_l1s@
    &&& one.rmi@.len() == other.rmi@.len()
    &&& forall|l: int|
        0 <= l < one.rmi@.len() ==> node_views((#[trigger] one.rmi@[l])@) == node_views(
            other.rmi@[l]@,
        )
    &&& one.models@ == other.models@
    &&& one.branching_factor == other.branching_factor
    &&& one.cache_fix is None
    &&& other.cache_fix is None
}

/// An index that a bucketing trainer gives for the names of a layer list
/// agrees with what `train` gives for the list. Of what the validation
/// driver builds this holds of the general trainer's index always, of the
/// two-layer trainer's for a list of two names, and of the partial
/// three-layer trainer's for a list of three.
pub proof fn lemma_variant_agrees_with_train(
    variant: TrainedRMI,
    rmi: TrainedRMI,
    pairs: Seq<(u64, usize)>,
    model_spec: Seq<char>,
    b: u64,
)
    requires
        variant_gives(variant, pairs, split_commas(model_spec), b, TrainMode::Bucketed),
        train_outcome(pairs, model_spec, b) matches Ok(plan) && rmi.trained_by(plan),
        rmi.models@ == model_spec,
        rmi.cache_fix is None,
    ensures
        same_index(variant, rmi),
{
    let plan = train_outcome(pairs, model_spec, b)->Ok_0;
    lemma_join_split(model_spec);
    crate::optimizer::search::lemma_plan_has_layers(pairs, model_spec, b);
    lemma_same_index(variant, rmi, plan);
}

/// Two indexes of one plan, with one layer list and without a spline, agree
/// in everything but their build time.
pub proof fn lemma_same_index(one: TrainedRMI, other: TrainedRMI, plan: Plan)
    requires
        one.trained_by(plan),
        other.trained_by(plan),
        plan.kinds.len() >= 1,
        one.models@ == other.models@,
        one.cache_fix is None,
        other.cache_fix is None,
    ensures
        same_index(one, other),
{
    lemma_deterministic(one, other, plan);
}

} // verus!
