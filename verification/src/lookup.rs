//! Looking a key up in a trained index.
//!
//! A lookup goes down the layers: the model of each node predicts a
//! position for the key, the prediction picks the child, and the child's
//! slot names the node of the next layer. The leaf that is reached gives
//! the position and the radii within which the key stands.
use vstd::prelude::*;
use crate::engine::{child_index_exec, layer_matches, node_matches, Node};
use crate::plan::{
    ascending, child_index, lemma_run_end_bounds, run_end, run_start, run_width, runs_from, Plan,
    TrainMode,
};
use crate::rmi::TrainedRMI;
use crate::runs::{lemma_run_end_shared, lemma_run_of, lemma_runs_apart, lemma_runs_cover, lemma_runs_from};

verus! {

/// What a lookup finds for a key.
#[derive(Clone, Copy, Debug, PartialEq, Eq)]
pub struct Lookup {
    /// The index of the leaf among the leaves of the index.
    pub leaf: usize,
    /// The position that the leaf predicts for the key.
    pub position: u64,
    /// The key stands no more than this below the position,
    pub left_radius: u64,
    /// and no more than this above it.
    pub right_radius: u64,
}

/// The models of a layer are well formed, and its nodes stand in strictly
/// ascending order of slot.
pub open spec fn layer_wf(nodes: Seq<Node>) -> bool {
    &&& forall|k: int| 0 <= k < nodes.len() ==> (#[trigger] nodes[k]).model.form@.wf()
    &&& forall|j: int, k: int|
        0 <= j < k < nodes.len() ==> (#[trigger] nodes[j]).slot < (#[trigger] nodes[k]).slot
}

/// Every layer of the index is well formed.
pub open spec fn index_wf(rmi: TrainedRMI) -> bool {
    forall|l: int| 0 <= l < rmi.rmi@.len() ==> layer_wf((#[trigger] rmi.rmi@[l])@)
}

/// The number of positions that a node's run covers.
pub open spec fn node_width(node: Node) -> nat {
    if node.last_position >= node.first_position {
        (node.last_position - node.first_position + 1) as nat
    } else {
        1
    }
}

/// The slot in the next layer that a node sends a key to; it may be too
/// large to be written in 64 bits.
pub open spec fn next_slot(node: Node, b: u64, key: u64) -> nat {
    (node.slot * b + child_index(
        node.model.form@.predict(key),
        b,
        node.first_position,
        node_width(node),
    )) as nat
}

/// Finds the node with the given slot.
pub fn find_slot(nodes: &Vec<Node>, slot: u64) -> (r: Option<usize>)
    requires
        layer_wf(nodes@),
    ensures
        r matches Some(k) ==> k < nodes@.len() && nodes@[k as int].slot == slot,
        r is None ==> forall|k: int| 0 <= k < nodes@.len() ==> (#[trigger] nodes@[k]).slot != slot,
{
    let mut lo: usize = 0;
    let mut hi: usize = nodes.len();
    while lo < hi
        invariant
            lo <= hi <= nodes@.len(),
            layer_wf(nodes@),
            forall|k: int| 0 <= k < lo ==> (#[trigger] nodes@[k]).slot < slot,
            forall|k: int| hi <= k < nodes@.len() ==> (#[trigger] nodes@[k]).slot > slot,
        decreases hi - lo,
    {
        let mid: usize = lo + (hi - lo) / 2;
        let at: u64 = nodes[mid].slot;
        if at == slot {
            return Some(mid);
        } else if at < slot {
            assert forall|k: int| 0 <= k < mid + 1 implies (#[trigger] nodes@[k]).slot < slot by {
                if k < mid {
                    assert(nodes@[k].slot < nodes@[mid as int].slot);
                }
            }
            lo = mid + 1;
        } else {
            assert forall|k: int| mid <= k < nodes@.len() implies (#[trigger] nodes@[k]).slot
                > slot by {
                if k > mid {
                    assert(nodes@[mid as int].slot < nodes@[k].slot);
                }
            }
            hi = mid;
        }
    }
    None
}

/// A plan that trains without a defect sends the pairs of every layer to
/// slots that ascend and that 64 bits can count.
pub proof fn lemma_no_defect(plan: Plan, from: nat, layer: nat)
    requires
        plan.defect(from) is None,
        from <= layer < plan.kinds.len(),
    ensures
        ascending(plan.slots(layer)),
        forall|i: int| 0 <= i < plan.n() ==> #[trigger] plan.slots(layer)[i] <= u64::MAX,
    decreases layer - from,
{
    if from < layer {
        lemma_no_defect(plan, from + 1, layer);
    }
}

/// Between two indices with one slot, in ascending slots, every index has
/// that slot, so that the run of the first reaches the second.
proof fn lemma_run_reaches(slots: Seq<nat>, a: int, b: int)
    requires
        ascending(slots),
        0 <= a <= b < slots.len(),
        slots[a] == slots[b],
    ensures
        run_end(slots, a) > b,
    decreases b - a,
{
    lemma_run_end_bounds(slots, a);
    if a < b {
        lemma_between(slots, a, a + 1, b);
        lemma_run_reaches(slots, a + 1, b);
    }
}

/// In ascending slots, a slot between two others is between them.
proof fn lemma_between(slots: Seq<nat>, a: int, m: int, b: int)
    requires
        ascending(slots),
        0 <= a <= m <= b < slots.len(),
    ensures
        slots[a] <= slots[m] <= slots[b],
{
    lemma_ascends(slots, a, m);
    lemma_ascends(slots, m, b);
}

proof fn lemma_ascends(slots: Seq<nat>, a: int, b: int)
    requires
        ascending(slots),
        0 <= a <= b < slots.len(),
    ensures
        slots[a] <= slots[b],
    decreases b - a,
{
    if a < b {
        lemma_ascends(slots, a, b - 1);
        assert(slots[b - 1] <= slots[b - 1 + 1]);
    }
}

/// The layers of an index that was trained without a defect are well
/// formed.
pub proof fn lemma_trained_wf(rmi: TrainedRMI, plan: Plan)
    requires
        rmi.built_by(plan),
        plan.defect(0) is None,
    ensures
        index_wf(rmi),
{
    assert forall|l: int| 0 <= l < rmi.rmi@.len() implies layer_wf((#[trigger] rmi.rmi@[l])@) by {
        let nodes = rmi.rmi@[l]@;
        let slots = plan.slots(l as nat);
        let runs = runs_from(slots, 0);
        assert(layer_matches(nodes, plan, l as nat));
        assert(slots.len() == plan.n());
        lemma_no_defect(plan, 0, l as nat);
        lemma_runs_from(slots, 0);
        assert forall|k: int| 0 <= k < nodes.len() implies (#[trigger] nodes[k]).model.form@.wf() by {
            assert(node_matches(nodes[k], plan, l as nat, runs[k]));
        }
        assert forall|j: int, k: int| 0 <= j < k < nodes.len() implies (#[trigger] nodes[j]).slot
            < (#[trigger] nodes[k]).slot by {
            assert(node_matches(nodes[j], plan, l as nat, runs[j]));
            assert(node_matches(nodes[k], plan, l as nat, runs[k]));
            lemma_runs_apart(runs, slots, 0, j, k);
            lemma_run_of(runs, slots, 0, j, runs[j].0);
            lemma_run_of(runs, slots, 0, k, runs[k].0);
            lemma_ascends(slots, runs[j].0, runs[k].0);
            if slots[runs[j].0] == slots[runs[k].0] {
                lemma_run_reaches(slots, runs[j].0, runs[k].0);
            }
        }
    }
}

/// The node of a layer that has the slot of a pair holds the pair, and
/// sends the pair's key to the pair's slot in the next layer.
pub proof fn lemma_route(rmi: TrainedRMI, plan: Plan, layer: int, k: int, i: int)
    requires
        rmi.built_by(plan),
        index_wf(rmi),
        plan.feasible(),
        plan.defect(0) is None,
        plan.mode != TrainMode::Unbucketed,
        0 <= layer < plan.kinds.len(),
        0 <= i < plan.n(),
        0 <= k < rmi.rmi@[layer]@.len(),
        rmi.rmi@[layer]@[k].slot == plan.slots(layer as nat)[i],
    ensures
        rmi.rmi@[layer]@[k].start <= i < rmi.rmi@[layer]@[k].end,
        layer + 1 < plan.kinds.len() ==> next_slot(rmi.rmi@[layer]@[k], plan.b, plan.xs[i])
            == plan.slots((layer + 1) as nat)[i] && plan.slots((layer + 1) as nat)[i] <= u64::MAX,
{
    let nodes = rmi.rmi@[layer]@;
    let slots = plan.slots(layer as nat);
    let runs = runs_from(slots, 0);
    assert(layer_matches(nodes, plan, layer as nat));
    assert(layer_wf(nodes));
    assert(slots.len() == plan.n());
    lemma_runs_from(slots, 0);
    // the node whose run holds the pair has the pair's slot
    let h = lemma_runs_cover(runs, slots, 0, i, runs.len() - 1);
    assert(node_matches(nodes[h], plan, layer as nat, runs[h]));
    lemma_run_of(runs, slots, 0, h, i);
    lemma_run_of(runs, slots, 0, h, runs[h].0);
    lemma_run_end_shared(slots, runs[h].0, i);
    assert(nodes[h].slot == slots[i]);
    // and no other node has it
    assert(h == k) by {
        if h < k {
            assert(nodes[h].slot < nodes[k].slot);
        }
        if k < h {
            assert(nodes[k].slot < nodes[h].slot);
        }
    }
    if layer + 1 < plan.kinds.len() {
        lemma_no_defect(plan, 0, (layer + 1) as nat);
        let a = runs[h].0;
        assert(plan.models(layer as nat)[i] == plan.models(layer as nat)[a]);
        assert(run_width(plan.ys, run_start(slots, i), run_end(slots, i)) == node_width(nodes[k]));
    }
}

/// Some pair of the plan has the key, and the index is built by the plan,
/// which trains without a defect and sends pairs to children.
pub open spec fn holds_key(rmi: TrainedRMI, plan: Plan, i: int, key: u64) -> bool {
    &&& rmi.built_by(plan)
    &&& plan.feasible()
    &&& plan.defect(0) is None
    &&& plan.mode != TrainMode::Unbucketed
    &&& 0 <= i < plan.n()
    &&& plan.xs[i] == key
}

impl TrainedRMI {
    /// The leaves of the index.
    pub open spec fn leaves(&self) -> Seq<Node> {
        self.rmi@[self.rmi@.len() - 1]@
    }

    /// Looks the key up: goes down from the root, at each node to the child
    /// that the node's prediction for the key picks, and gives what the leaf
    /// predicts, with the leaf's radii. A key that leads to a child which no
    /// pair of the data reached finds nothing.
    ///
    /// For the key of any pair of the data the lookup finds the leaf whose
    /// run holds the pair.
    pub fn lookup(&self, key: u64) -> (r: Option<Lookup>)
        requires
            index_wf(*self),
        ensures
            r matches Some(found) ==> {
                &&& self.rmi@.len() >= 1
                &&& found.leaf < self.leaves().len()
                &&& found.position == self.leaves()[found.leaf as int].model.form@.predict(key)
                &&& found.left_radius == self.leaves()[found.leaf as int].left_radius
                &&& found.right_radius == self.leaves()[found.leaf as int].right_radius
            },
            forall|plan: Plan, i: int| #[trigger]
                holds_key(*self, plan, i, key) ==> (r matches Some(found) && self.leaves()[found.leaf as int].start
                    <= i < self.leaves()[found.leaf as int].end && found.position
                    - found.left_radius <= plan.ys[i] <= found.position + found.right_radius),
    {
        let depth: usize = self.rmi.len();
        if depth == 0 {
            return None;
        }
        let b: u64 = self.branching_factor;
        let mut slot: u64 = 0;
        let mut layer: usize = 0;
        while layer < depth
            invariant
                depth == self.rmi@.len(),
                layer < depth,
                b == self.branching_factor,
                index_wf(*self),
                forall|plan: Plan, i: int| #[trigger]
                    holds_key(*self, plan, i, key) ==> slot == plan.slots(layer as nat)[i],
            decreases depth - layer,
        {
            let nodes = &self.rmi[layer];
            assert(layer_wf(nodes@));
            let at = match find_slot(nodes, slot) {
                Some(at) => at,
                None => {
                    proof {
                        assert forall|plan: Plan, i: int| #[trigger]
                            holds_key(*self, plan, i, key) implies false by {
                            lemma_holder(*self, plan, layer as int, i);
                        }
                    }
                    return None;
                },
            };
            let node = &nodes[at];
            proof {
                assert forall|plan: Plan, i: int| #[trigger]
                    holds_key(*self, plan, i, key) implies node.start <= i < node.end && (layer + 1
                    < depth ==> next_slot(*node, b, key) == plan.slots((layer + 1) as nat)[i]
                    && plan.slots((layer + 1) as nat)[i] <= u64::MAX) by {
                    lemma_route(*self, plan, layer as int, at as int, i);
                }
            }
            let p: u64 = node.model.predict_to_int(key);
            if layer + 1 == depth {
                proof {
                    assert forall|plan: Plan, i: int| #[trigger]
                        holds_key(*self, plan, i, key) implies p - node.left_radius <= plan.ys[i]
                        <= p + node.right_radius by {
                        crate::laws::lemma_radius_sound(*self, plan, layer as int, at as int, i);
                    }
                }
                return Some(
                    Lookup {
                        leaf: at,
                        position: p,
                        left_radius: node.left_radius,
                        right_radius: node.right_radius,
                    },
                );
            }
            if b == 0 {
                proof {
                    assert forall|plan: Plan, i: int| #[trigger]
                        holds_key(*self, plan, i, key) implies false by {
                    }
                }
                return None;
            }
            let width: u128 = if node.last_position >= node.first_position {
                (node.last_position - node.first_position) as u128 + 1
            } else {
                1
            };
            let child: u64 = child_index_exec(p, b, node.first_position, width);
            let next: u64 = match node.slot.checked_mul(b) {
                Some(t) => match t.checked_add(child) {
                    Some(next) => next,
                    None => {
                        return None;
                    },
                },
                None => {
                    return None;
                },
            };
            slot = next;
            layer += 1;
        }
        None
    }
}

/// Some node of every layer holds each pair, with the pair's slot.
pub proof fn lemma_holder(rmi: TrainedRMI, plan: Plan, layer: int, i: int)
    requires
        rmi.built_by(plan),
        0 <= layer < plan.kinds.len(),
        0 <= i < plan.n(),
    ensures
        exists|k: int|
            0 <= k < rmi.rmi@[layer]@.len() && (#[trigger] rmi.rmi@[layer]@[k]).slot == plan.slots(
                layer as nat,
            )[i],
{
    let nodes = rmi.rmi@[layer]@;
    let slots = plan.slots(layer as nat);
    let runs = runs_from(slots, 0);
    assert(layer_matches(nodes, plan, layer as nat));
    assert(slots.len() == plan.n());
    lemma_runs_from(slots, 0);
    let h = lemma_runs_cover(runs, slots, 0, i, runs.len() - 1);
    assert(node_matches(nodes[h], plan, layer as nat, runs[h]));
    lemma_run_of(runs, slots, 0, h, i);
    lemma_run_end_shared(slots, runs[h].0, i);
    assert(nodes[h].slot == slots[i]);
}

} // verus!
