//! Building the layers of an index, one after the other.
use vstd::prelude::*;
use crate::fit::{fit, fit_exec, max_over};
use crate::models::{Model, ModelKind};
use crate::plan::{ascending, child_index, run_end, run_start, run_width, runs_from, Plan, TrainMode};
use crate::runs::{nats, run_of_each, run_pairs, runs_of, tiles};
use crate::train::TrainError;

verus! {

/// One model of a layer, with the run of pairs that reach it.
///
/// The true position of every pair of the run lies no more than
/// `left_radius` below, and no more than `right_radius` above, what the
/// model predicts for the pair's key.
#[derive(Debug)]
pub struct Node {
    /// The model's place in its layer: the parent's slot times the
    /// branching factor, plus the child's index.
    pub slot: u64,
    /// The index of the run's first pair.
    pub start: usize,
    /// The index behind the run's last pair.
    pub end: usize,
    /// The position of the run's first pair.
    pub first_position: u64,
    /// The position of the run's last pair.
    pub last_position: u64,
    pub model: Model,
    pub left_radius: u64,
    pub right_radius: u64,
}

/// How far the prediction for pair `i` lies above the pair's position.
pub open spec fn excess(preds: Seq<u64>, ys: Seq<u64>) -> spec_fn(int) -> nat {
    |i: int|
        if preds[i] > ys[i] {
            (preds[i] - ys[i]) as nat
        } else {
            0
        }
}

/// How far the prediction for pair `i` lies below the pair's position.
pub open spec fn shortfall(preds: Seq<u64>, ys: Seq<u64>) -> spec_fn(int) -> nat {
    |i: int|
        if ys[i] > preds[i] {
            (ys[i] - preds[i]) as nat
        } else {
            0
        }
}

/// The node is the one that the plan has for the run in the given layer.
pub open spec fn node_matches(node: Node, plan: Plan, layer: nat, run: (int, int)) -> bool {
    &&& node.start == run.0
    &&& node.end == run.1
    &&& node.slot == plan.slots(layer)[run.0]
    &&& node.first_position == plan.ys[run.0]
    &&& node.last_position == plan.ys[run.1 - 1]
    &&& node.model.kind == plan.kinds[layer as int]
    &&& node.model.form@ == plan.models(layer)[run.0]
    &&& node.model.form@.wf()
    &&& node.left_radius == max_over(run.0, run.1, excess(plan.predictions(layer), plan.ys))
    &&& node.right_radius == max_over(run.0, run.1, shortfall(plan.predictions(layer), plan.ys))
}

/// The nodes are the plan's layer: one node for each run, in order.
pub open spec fn layer_matches(nodes: Seq<Node>, plan: Plan, layer: nat) -> bool {
    let runs = runs_from(plan.slots(layer), 0);
    &&& nodes.len() == runs.len()
    &&& forall|k: int| 0 <= k < nodes.len() ==> node_matches(#[trigger] nodes[k], plan, layer, runs[k])
}

/// The nodes hold, for each run, the fit of `kind` to the run's keys and
/// targets, with the run's slot and the radii of its predictions; `preds`
/// holds what each pair's node predicts for the pair.
pub open spec fn layer_built(
    kind: ModelKind,
    xs: Seq<u64>,
    targets: Seq<u64>,
    ys: Seq<u64>,
    slots: Seq<u64>,
    runs: Seq<(usize, usize)>,
    nodes: Seq<Node>,
    preds: Seq<u64>,
) -> bool {
    &&& nodes.len() == runs.len()
    &&& preds.len() == xs.len()
    &&& forall|k: int|
        0 <= k < runs.len() ==> {
            let node = #[trigger] nodes[k];
            &&& node.start == runs[k].0
            &&& node.end == runs[k].1
            &&& node.slot == slots[runs[k].0 as int]
            &&& node.first_position == ys[runs[k].0 as int]
            &&& node.last_position == ys[runs[k].1 - 1]
            &&& node.model.kind == kind
            &&& node.model.form@ == fit(kind, xs, targets, runs[k].0 as int, runs[k].1 as int)
            &&& node.model.form@.wf()
            &&& node.left_radius == max_over(runs[k].0 as int, runs[k].1 as int, excess(preds, ys))
            &&& node.right_radius == max_over(
                runs[k].0 as int,
                runs[k].1 as int,
                shortfall(preds, ys),
            )
        }
    &&& forall|k: int, i: int|
        0 <= k < runs.len() && runs[k].0 <= i < runs[k].1 ==> #[trigger] preds[i] == (
        #[trigger] nodes[k]).model.form@.predict(xs[i])
}

/// `next` holds, for each pair, its slot times the branching factor plus
/// the child that the prediction for it picks.
pub open spec fn slots_follow(
    slots: Seq<u64>,
    runs: Seq<(usize, usize)>,
    preds: Seq<u64>,
    ys: Seq<u64>,
    b: u64,
    next: Seq<u64>,
) -> bool {
    &&& next.len() == ys.len()
    &&& forall|k: int, i: int|
        0 <= k < runs.len() && runs[k].0 <= i < runs[k].1 ==> #[trigger] next[i] == slots[i] * b
            + child_index(
            preds[i],
            b,
            ys[(#[trigger] runs[k]).0 as int],
            run_width(ys, runs[k].0 as int, runs[k].1 as int),
        )
}

/// Some pair's slot in the next layer cannot be written in 64 bits.
pub open spec fn slots_overflow(
    slots: Seq<u64>,
    runs: Seq<(usize, usize)>,
    preds: Seq<u64>,
    ys: Seq<u64>,
    b: u64,
) -> bool {
    exists|k: int, i: int|
        0 <= k < runs.len() && runs[k].0 <= i < runs[k].1 && #[trigger] slots[i] * b
            + child_index(
            preds[i],
            b,
            ys[(#[trigger] runs[k]).0 as int],
            run_width(ys, runs[k].0 as int, runs[k].1 as int),
        ) > u64::MAX
}

/// What was built for a layer from the plan's slots and targets is the
/// plan's layer.
pub proof fn lemma_layer_built(
    plan: Plan,
    layer: nat,
    targets: Seq<u64>,
    slots: Seq<u64>,
    runs: Seq<(usize, usize)>,
    nodes: Seq<Node>,
    preds: Seq<u64>,
)
    requires
        plan.feasible(),
        layer < plan.kinds.len(),
        nats(slots) == plan.slots(layer),
        targets == plan.targets(layer),
        run_pairs(runs) == runs_from(nats(slots), 0),
        tiles(runs, plan.n()),
        run_of_each(runs, nats(slots)),
        layer_built(plan.kinds[layer as int], plan.xs, targets, plan.ys, slots, runs, nodes, preds),
    ensures
        preds == plan.predictions(layer),
        layer_matches(nodes, plan, layer),
{
    let s = plan.slots(layer);
    let n = plan.n();
    assert forall|i: int| 0 <= i < n implies #[trigger] preds[i] == plan.predictions(layer)[i] by {
        let k = lemma_tiles_cover(runs, n, i, runs.len() - 1);
        assert(run_start(s, i) == runs[k].0);
        assert(run_end(s, i) == runs[k].1);
        assert(preds[i] == nodes[k].model.form@.predict(plan.xs[i]));
    }
    assert(preds =~= plan.predictions(layer));
    assert(run_pairs(runs).len() == runs.len());
    assert forall|k: int| 0 <= k < nodes.len() implies node_matches(
        #[trigger] nodes[k],
        plan,
        layer,
        runs_from(s, 0)[k],
    ) by {
        assert(run_pairs(runs)[k] == runs_from(s, 0)[k]);
        let a = runs[k].0 as int;
        assert(run_start(s, a) == runs[k].0);
        assert(run_end(s, a) == runs[k].1);
        assert(s[a] == slots[a] as nat);
    }
}

/// The slots that follow the plan's layer are the plan's next slots.
pub proof fn lemma_slots_follow(
    plan: Plan,
    layer: nat,
    slots: Seq<u64>,
    runs: Seq<(usize, usize)>,
    preds: Seq<u64>,
    next: Seq<u64>,
)
    requires
        plan.feasible(),
        plan.mode != TrainMode::Unbucketed,
        layer + 1 < plan.kinds.len(),
        nats(slots) == plan.slots(layer),
        preds == plan.predictions(layer),
        tiles(runs, plan.n()),
        run_of_each(runs, nats(slots)),
        slots_follow(slots, runs, preds, plan.ys, plan.b, next),
    ensures
        nats(next) == plan.slots(layer + 1),
{
    let s = plan.slots(layer);
    let n = plan.n();
    assert forall|i: int| 0 <= i < n implies nats(next)[i] == plan.slots(layer + 1)[i] by {
        let k = lemma_tiles_cover(runs, n, i, runs.len() - 1);
        assert(run_start(s, i) == runs[k].0);
        assert(run_end(s, i) == runs[k].1);
        assert(next[i] == slots[i] * plan.b + child_index(
            preds[i],
            plan.b,
            plan.ys[runs[k].0 as int],
            run_width(plan.ys, runs[k].0 as int, runs[k].1 as int),
        ));
        assert(s[i] == slots[i] as nat);
    }
    assert(nats(next) =~= plan.slots(layer + 1));
}

/// Where a slot of the next layer overflows, the plan has that defect.
pub proof fn lemma_slots_overflow(
    plan: Plan,
    layer: nat,
    slots: Seq<u64>,
    runs: Seq<(usize, usize)>,
    preds: Seq<u64>,
)
    requires
        plan.feasible(),
        plan.mode != TrainMode::Unbucketed,
        layer + 1 < plan.kinds.len(),
        nats(slots) == plan.slots(layer),
        preds == plan.predictions(layer),
        tiles(runs, plan.n()),
        run_of_each(runs, nats(slots)),
        slots_overflow(slots, runs, preds, plan.ys, plan.b),
    ensures
        plan.defect(layer + 1) == Some(TrainError::BadBranchingFactor),
{
    let s = plan.slots(layer);
    let (k, i) = choose|k: int, i: int|
        0 <= k < runs.len() && runs[k].0 <= i < runs[k].1 && #[trigger] slots[i] * plan.b
            + child_index(
            preds[i],
            plan.b,
            plan.ys[(#[trigger] runs[k]).0 as int],
            run_width(plan.ys, runs[k].0 as int, runs[k].1 as int),
        ) > u64::MAX;
    assert(run_start(s, i) == runs[k].0);
    assert(run_end(s, i) == runs[k].1);
    assert(s[i] == slots[i] as nat);
    assert(plan.slots(layer + 1)[i] > u64::MAX);
}

/// Slots that are 64-bit numbers hold no overflow.
pub proof fn lemma_slots_fit(plan: Plan, layer: nat, slots: Seq<u64>)
    requires
        nats(slots) == plan.slots(layer),
    ensures
        !exists|i: int| 0 <= i < plan.n() && #[trigger] plan.slots(layer)[i] > u64::MAX,
{
    assert(plan.slots(layer).len() == plan.xs.len());
    assert(nats(slots).len() == slots.len());
    assert forall|i: int| 0 <= i < plan.n() implies !(#[trigger] plan.slots(layer)[i] > u64::MAX) by {
        assert(nats(slots)[i] == slots[i] as nat);
    }
}

pub fn child_index_exec(p: u64, b: u64, lo: u64, width: u128) -> (c: u64)
    requires
        b >= 1,
        1 <= width <= 0x1_0000_0000_0000_0000,
    ensures
        c == child_index(p, b, lo, width as nat),
        c < b,
{
    if p <= lo {
        return 0;
    }
    let d: u128 = (p - lo) as u128;
    let bw: u128 = b as u128;
    assert(d * bw <= 0xffff_ffff_ffff_ffff * 0xffff_ffff_ffff_ffff) by (nonlinear_arith)
        requires
            d <= 0xffff_ffff_ffff_ffff,
            bw <= 0xffff_ffff_ffff_ffff,
    ;
    let c: u128 = (d * bw) / width;
    if c >= bw {
        b - 1
    } else {
        c as u64
    }
}

/// The positions that a run covers, as the machine counts them.
fn run_width_exec(ys: &Vec<u64>, start: usize, end: usize) -> (w: u128)
    requires
        start < end <= ys@.len(),
    ensures
        w == run_width(ys@, start as int, end as int),
        1 <= w <= 0x1_0000_0000_0000_0000,
{
    if ys[end - 1] >= ys[start] {
        (ys[end - 1] - ys[start]) as u128 + 1
    } else {
        1
    }
}

/// Fits one model to each run and sets down what it predicts for each pair.
fn build_layer(
    kind: ModelKind,
    xs: &Vec<u64>,
    targets: &Vec<u64>,
    ys: &Vec<u64>,
    slots: &Vec<u64>,
    runs: &Vec<(usize, usize)>,
) -> (r: (Vec<Node>, Vec<u64>))
    requires
        xs@.len() == targets@.len(),
        xs@.len() == ys@.len(),
        xs@.len() == slots@.len(),
        tiles(runs@, xs@.len() as int),
    ensures
        layer_built(kind, xs@, targets@, ys@, slots@, runs@, r.0@, r.1@),
{
    let n: usize = xs.len();
    let mut nodes: Vec<Node> = Vec::new();
    let mut preds: Vec<u64> = Vec::new();
    let mut k: usize = 0;
    while k < runs.len()
        invariant
            n == xs@.len(),
            xs@.len() == targets@.len(),
            xs@.len() == ys@.len(),
            xs@.len() == slots@.len(),
            tiles(runs@, n as int),
            k <= runs@.len(),
            nodes@.len() == k,
            preds@.len() == (if k == 0 {
                0int
            } else {
                runs@[k - 1].1 as int
            }),
            forall|j: int|
                0 <= j < k ==> {
                    let node = #[trigger] nodes@[j];
                    &&& node.start == runs@[j].0
                    &&& node.end == runs@[j].1
                    &&& node.slot == slots@[runs@[j].0 as int]
                    &&& node.first_position == ys@[runs@[j].0 as int]
                    &&& node.last_position == ys@[runs@[j].1 - 1]
                    &&& node.model.kind == kind
                    &&& node.model.form@ == fit(
                        kind,
                        xs@,
                        targets@,
                        runs@[j].0 as int,
                        runs@[j].1 as int,
                    )
                    &&& node.model.form@.wf()
                    &&& node.left_radius == max_over(
                        runs@[j].0 as int,
                        runs@[j].1 as int,
                        excess(preds@, ys@),
                    )
                    &&& node.right_radius == max_over(
                        runs@[j].0 as int,
                        runs@[j].1 as int,
                        shortfall(preds@, ys@),
                    )
                },
            forall|j: int, i: int|
                0 <= j < k && runs@[j].0 <= i < runs@[j].1 ==> #[trigger] preds@[i] == (
                #[trigger] nodes@[j]).model.form@.predict(xs@[i]),
        decreases runs@.len() - k,
    {
        let start: usize = runs[k].0;
        let end: usize = runs[k].1;
        assert(k > 0 ==> runs@[k - 1].1 == runs@[k as int].0);
        let form = fit_exec(kind, xs, targets, start, end);
        let ghost before = preds@;
        let mut left: u64 = 0;
        let mut right: u64 = 0;
        let mut i: usize = start;
        while i < end
            invariant
                start <= i <= end <= n,
                n == xs@.len(),
                xs@.len() == ys@.len(),
                form@.wf(),
                preds@.len() == i,
                before.len() == start,
                forall|j: int| 0 <= j < start ==> preds@[j] == before[j],
                forall|j: int| start <= j < i ==> preds@[j] == form@.predict(xs@[j]),
                left == max_over(start as int, i as int, excess(preds@, ys@)),
                right == max_over(start as int, i as int, shortfall(preds@, ys@)),
            decreases end - i,
        {
            let p: u64 = form.predict(xs[i]);
            let ghost old_preds = preds@;
            preds.push(p);
            proof {
                lemma_max_over_agrees(
                    start as int,
                    i as int,
                    excess(old_preds, ys@),
                    excess(preds@, ys@),
                );
                lemma_max_over_agrees(
                    start as int,
                    i as int,
                    shortfall(old_preds, ys@),
                    shortfall(preds@, ys@),
                );
            }
            if p > ys[i] {
                if p - ys[i] > left {
                    left = p - ys[i];
                }
            } else {
                if ys[i] - p > right {
                    right = ys[i] - p;
                }
            }
            i += 1;
        }
        let ghost old_nodes = nodes@;
        nodes.push(
            Node {
                slot: slots[start],
                start,
                end,
                first_position: ys[start],
                last_position: ys[end - 1],
                model: Model { kind, form },
                left_radius: left,
                right_radius: right,
            },
        );
        proof {
            assert forall|j: int| 0 <= j < k implies {
                let node = #[trigger] nodes@[j];
                &&& node.left_radius == max_over(
                    runs@[j].0 as int,
                    runs@[j].1 as int,
                    excess(preds@, ys@),
                )
                &&& node.right_radius == max_over(
                    runs@[j].0 as int,
                    runs@[j].1 as int,
                    shortfall(preds@, ys@),
                )
            } by {
                assert(nodes@[j] == old_nodes[j]);
                lemma_tiles_ordered(runs@, n as int, j, k as int);
                lemma_max_over_agrees(
                    runs@[j].0 as int,
                    runs@[j].1 as int,
                    excess(before, ys@),
                    excess(preds@, ys@),
                );
                lemma_max_over_agrees(
                    runs@[j].0 as int,
                    runs@[j].1 as int,
                    shortfall(before, ys@),
                    shortfall(preds@, ys@),
                );
            }
            assert forall|j: int, i: int|
                0 <= j < k + 1 && runs@[j].0 <= i < runs@[j].1 implies #[trigger] preds@[i] == (
            #[trigger] nodes@[j]).model.form@.predict(xs@[i]) by {
                if j < k {
                    assert(nodes@[j] == old_nodes[j]);
                    lemma_tiles_ordered(runs@, n as int, j, k as int);
                    assert(preds@[i] == before[i]);
                }
            }
        }
        k += 1;
    }
    proof {
        if runs@.len() == 0 {
            assert(n == 0);
        }
    }
    (nodes, preds)
}

/// Two terms that agree on a range have the same largest value there.
pub proof fn lemma_max_over_agrees(lo: int, hi: int, f: spec_fn(int) -> nat, g: spec_fn(int) -> nat)
    requires
        forall|i: int| lo <= i < hi ==> #[trigger] f(i) == g(i),
    ensures
        max_over(lo, hi, f) == max_over(lo, hi, g),
    decreases hi - lo,
{
    if lo < hi {
        lemma_max_over_agrees(lo, hi - 1, f, g);
    }
}

/// An earlier run of a tiling ends no later than a later one starts.
pub proof fn lemma_tiles_ordered(runs: Seq<(usize, usize)>, n: int, j: int, k: int)
    requires
        tiles(runs, n),
        0 <= j < k < runs.len(),
    ensures
        runs[j].1 <= runs[k].0,
    decreases k - j,
{
    if j + 1 < k {
        lemma_tiles_ordered(runs, n, j + 1, k);
        assert(runs[j].1 == runs[j + 1].0);
        assert(runs[j + 1].0 < runs[j + 1].1);
    } else {
        assert(runs[j].1 == runs[k].0);
    }
}

/// Every index below `n` lies in one of the runs that tile it.
pub proof fn lemma_tiles_cover(runs: Seq<(usize, usize)>, n: int, i: int, upto: int) -> (k: int)
    requires
        tiles(runs, n),
        0 <= i < n,
        0 <= upto < runs.len(),
        i < runs[upto].1,
    ensures
        0 <= k <= upto,
        runs[k].0 <= i < runs[k].1,
    decreases upto,
{
    if runs[upto].0 <= i {
        upto
    } else {
        assert(upto > 0);
        assert(runs[upto - 1].1 == runs[upto].0);
        lemma_tiles_cover(runs, n, i, upto - 1)
    }
}

/// The slots of the next layer: each pair's slot times the branching
/// factor, plus the child that the prediction for it picks.
fn next_slots(
    slots: &Vec<u64>,
    runs: &Vec<(usize, usize)>,
    preds: &Vec<u64>,
    ys: &Vec<u64>,
    b: u64,
) -> (r: Option<Vec<u64>>)
    requires
        b >= 1,
        slots@.len() == ys@.len(),
        preds@.len() == ys@.len(),
        tiles(runs@, ys@.len() as int),
    ensures
        r matches Some(next) ==> slots_follow(slots@, runs@, preds@, ys@, b, next@),
        r is None ==> slots_overflow(slots@, runs@, preds@, ys@, b),
{
    let n: usize = ys.len();
    let mut next: Vec<u64> = Vec::new();
    let mut k: usize = 0;
    while k < runs.len()
        invariant
            b >= 1,
            n == ys@.len(),
            slots@.len() == ys@.len(),
            preds@.len() == ys@.len(),
            tiles(runs@, n as int),
            k <= runs@.len(),
            next@.len() == (if k == 0 {
                0int
            } else {
                runs@[k - 1].1 as int
            }),
            forall|j: int, i: int|
                0 <= j < k && runs@[j].0 <= i < runs@[j].1 ==> #[trigger] next@[i] == slots@[i] * b
                    + child_index(
                    preds@[i],
                    b,
                    ys@[(#[trigger] runs@[j]).0 as int],
                    run_width(ys@, runs@[j].0 as int, runs@[j].1 as int),
                ),
        decreases runs@.len() - k,
    {
        let start: usize = runs[k].0;
        let end: usize = runs[k].1;
        assert(k > 0 ==> runs@[k - 1].1 == runs@[k as int].0);
        let lo: u64 = ys[start];
        let width: u128 = run_width_exec(ys, start, end);
        let ghost before = next@;
        let mut i: usize = start;
        while i < end
            invariant
                b >= 1,
                start <= i <= end <= n,
                n == ys@.len(),
                slots@.len() == ys@.len(),
                preds@.len() == ys@.len(),
                0 <= k < runs@.len(),
                runs@[k as int] == (start, end),
                lo == ys@[start as int],
                width == run_width(ys@, start as int, end as int),
                1 <= width <= 0x1_0000_0000_0000_0000,
                next@.len() == i,
                before.len() == start,
                forall|j: int| 0 <= j < start ==> next@[j] == before[j],
                forall|j: int|
                    start <= j < i ==> #[trigger] next@[j] == slots@[j] * b + child_index(
                        preds@[j],
                        b,
                        lo,
                        width as nat,
                    ),
            decreases end - i,
        {
            let c: u64 = child_index_exec(preds[i], b, lo, width);
            let slot: u64 = match slots[i].checked_mul(b) {
                Some(t) => match t.checked_add(c) {
                    Some(slot) => slot,
                    None => {
                        return None;
                    },
                },
                None => {
                    return None;
                },
            };
            next.push(slot);
            i += 1;
        }
        proof {
            assert forall|j: int, i: int|
                0 <= j < k + 1 && runs@[j].0 <= i < runs@[j].1 implies #[trigger] next@[i]
                == slots@[i] * b + child_index(
                preds@[i],
                b,
                ys@[(#[trigger] runs@[j]).0 as int],
                run_width(ys@, runs@[j].0 as int, runs@[j].1 as int),
            ) by {
                if j < k {
                    lemma_tiles_ordered(runs@, n as int, j, k as int);
                    assert(next@[i] == before[i]);
                }
            }
        }
        k += 1;
    }
    proof {
        if runs@.len() == 0 {
            assert(n == 0);
        }
    }
    Some(next)
}

fn zeros(n: usize) -> (r: Vec<u64>)
    ensures
        r@.len() == n,
        forall|i: int| 0 <= i < n ==> r@[i] == 0,
{
    let mut r: Vec<u64> = Vec::new();
    let mut i: usize = 0;
    while i < n
        invariant
            i <= n,
            r@.len() == i,
            forall|j: int| 0 <= j < i ==> r@[j] == 0,
        decreases n - i,
    {
        r.push(0);
        i += 1;
    }
    r
}

/// Builds the layers that the plan over the given data and configuration
/// describes, and sets down what the leaves predict for each pair.
pub fn train_layers(
    xs: &Vec<u64>,
    ys: &Vec<u64>,
    kinds: &Vec<ModelKind>,
    b: u64,
    mode: TrainMode,
) -> (r: Result<(Vec<Vec<Node>>, Vec<u64>), TrainError>)
    requires
        (Plan { xs: xs@, ys: ys@, kinds: kinds@, b, mode }).feasible(),
    ensures
        ({
            let plan = Plan { xs: xs@, ys: ys@, kinds: kinds@, b, mode };
            match r {
                Ok((layers, preds)) => {
                    &&& plan.defect(0) is None
                    &&& layers@.len() == kinds@.len()
                    &&& forall|l: int|
                        0 <= l < layers@.len() ==> layer_matches(
                            (#[trigger] layers@[l])@,
                            plan,
                            l as nat,
                        )
                    &&& preds@ == plan.predictions(plan.last())
                },
                Err(e) => plan.defect(0) == Some(e),
            }
        }),
{
    let ghost plan = Plan { xs: xs@, ys: ys@, kinds: kinds@, b, mode };
    let n: usize = xs.len();
    let mut layers: Vec<Vec<Node>> = Vec::new();
    let mut slots: Vec<u64> = zeros(n);
    let mut root_targets: Option<Vec<u64>> = None;
    let mut leaf_preds: Vec<u64> = Vec::new();
    let mut layer: usize = 0;
    proof {
        assert(nats(slots@) =~= plan.slots(0));
    }
    while layer < kinds.len()
        invariant
            plan == (Plan { xs: xs@, ys: ys@, kinds: kinds@, b, mode }),
            plan.feasible(),
            n == xs@.len(),
            layer <= kinds@.len(),
            layers@.len() == layer,
            slots@.len() == n,
            layer < kinds@.len() ==> nats(slots@) == plan.slots(layer as nat),
            layer < kinds@.len() ==> match root_targets {
                Some(t) => t@ == plan.targets(layer as nat),
                None => ys@ == plan.targets(layer as nat),
            },
            plan.defect(0) == plan.defect(layer as nat),
            forall|l: int|
                0 <= l < layers@.len() ==> layer_matches((#[trigger] layers@[l])@, plan, l as nat),
            layer == kinds@.len() ==> leaf_preds@ == plan.predictions(plan.last()),
        decreases kinds@.len() - layer,
    {
        proof {
            lemma_slots_fit(plan, layer as nat, slots@);
        }
        let runs = match runs_of(&slots) {
            Some(runs) => runs,
            None => {
                return Err(TrainError::NotMonotone);
            },
        };
        let (nodes, preds) = match &root_targets {
            Some(t) => build_layer(kinds[layer], xs, t, ys, &slots, &runs),
            None => build_layer(kinds[layer], xs, ys, ys, &slots, &runs),
        };
        proof {
            lemma_layer_built(
                plan,
                layer as nat,
                plan.targets(layer as nat),
                slots@,
                runs@,
                nodes@,
                preds@,
            );
        }
        let ghost old_layers = layers@;
        layers.push(nodes);
        assert forall|l: int| 0 <= l < layers@.len() implies layer_matches(
            (#[trigger] layers@[l])@,
            plan,
            l as nat,
        ) by {
            if l < layer {
                assert(layers@[l] == old_layers[l]);
            }
        }
        if layer + 1 < kinds.len() {
            match mode {
                TrainMode::Unbucketed => {
                    proof {
                        assert(nats(slots@) =~= plan.slots((layer + 1) as nat));
                    }
                },
                _ => {
                    let next = match next_slots(&slots, &runs, &preds, ys, b) {
                        Some(next) => next,
                        None => {
                            proof {
                                lemma_slots_overflow(plan, layer as nat, slots@, runs@, preds@);
                            }
                            return Err(TrainError::BadBranchingFactor);
                        },
                    };
                    proof {
                        lemma_slots_follow(plan, layer as nat, slots@, runs@, preds@, next@);
                    }
                    slots = next;
                },
            }
            if layer == 0 && mode == TrainMode::RootTargets {
                proof {
                    assert(preds@ =~= plan.targets(1));
                }
                root_targets = Some(preds);
            } else {
                root_targets = None;
            }
        } else {
            leaf_preds = preds;
        }
        layer += 1;
    }
    Ok((layers, leaf_preds))
}

} // verus!
