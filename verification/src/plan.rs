//! What training gives, as a function of the data and the configuration.
//!
//! Every layer sends each pair to a slot. Pairs that stand together and
//! share a slot form a run, and each run gets one model. A model's
//! prediction for a key picks the child, and so the slot in the next layer.
use vstd::prelude::*;
use crate::fit::{fit, max_over, sum_over};
use crate::models::{FormView, ModelKind};
use crate::train::TrainError;

verus! {

/// How the layers below the root come to their runs and targets.
#[derive(Clone, Copy, Debug, PartialEq, Eq, Structural)]
pub enum TrainMode {
    /// Each model is fitted to the positions of its own run.
    Bucketed,
    /// As `Bucketed`, but the models of the second layer are fitted to the
    /// positions that the root predicts.
    RootTargets,
    /// Every layer holds one model, fitted to all the data.
    Unbucketed,
}

/// The child that a prediction `p` picks among `b` children of a model
/// whose run covers `width` positions from `lo` on: `(p - lo) * b / width`
/// rounded down, kept between `0` and `b - 1`.
pub open spec fn child_index(p: u64, b: u64, lo: u64, width: nat) -> nat {
    if p <= lo {
        0
    } else {
        let c = ((p - lo) * b) / (width as int);
        if c >= b {
            (b - 1) as nat
        } else {
            c as nat
        }
    }
}

/// The first index of the run that holds index `i`.
pub open spec fn run_start(slots: Seq<nat>, i: int) -> int
    decreases i,
{
    if i <= 0 || slots[i - 1] != slots[i] {
        i
    } else {
        run_start(slots, i - 1)
    }
}

/// The index behind the last of the run that holds index `i`.
pub open spec fn run_end(slots: Seq<nat>, i: int) -> int
    decreases slots.len() - i,
{
    if i + 1 >= slots.len() || slots[i + 1] != slots[i] {
        i + 1
    } else {
        run_end(slots, i + 1)
    }
}

/// The runs of `slots` from index `from` on, each as its first index and
/// the index behind its last.
pub open spec fn runs_from(slots: Seq<nat>, from: int) -> Seq<(int, int)>
    decreases slots.len() - from,
{
    if from < 0 || from >= slots.len() {
        Seq::empty()
    } else {
        proof {
            lemma_run_end_bounds(slots, from);
        }
        seq![(from, run_end(slots, from))] + runs_from(slots, run_end(slots, from))
    }
}

/// A run ends behind its indices and inside the sequence.
pub proof fn lemma_run_end_bounds(slots: Seq<nat>, i: int)
    requires
        0 <= i < slots.len(),
    ensures
        i < run_end(slots, i) <= slots.len(),
    decreases slots.len() - i,
{
    if !(i + 1 >= slots.len() || slots[i + 1] != slots[i]) {
        lemma_run_end_bounds(slots, i + 1);
    }
}

/// The number of positions that a run covers, counted from the position
/// of its first pair to that of its last.
pub open spec fn run_width(ys: Seq<u64>, start: int, end: int) -> nat {
    if ys[end - 1] >= ys[start] {
        (ys[end - 1] - ys[start] + 1) as nat
    } else {
        1
    }
}

/// No slot is smaller than the one before it.
pub open spec fn ascending(slots: Seq<nat>) -> bool {
    forall|i: int| 0 <= i < slots.len() - 1 ==> slots[i] <= #[trigger] slots[i + 1]
}

/// The data and the configuration of one training.
pub ghost struct Plan {
    /// The keys, in the order of the data.
    pub xs: Seq<u64>,
    /// The position of each key.
    pub ys: Seq<u64>,
    /// The kind of each layer, the root first.
    pub kinds: Seq<ModelKind>,
    /// The branching factor.
    pub b: u64,
    pub mode: TrainMode,
}

impl Plan {
    pub open spec fn n(self) -> int {
        self.xs.len() as int
    }

    /// The slot of each pair in layer `layer`.
    pub open spec fn slots(self, layer: nat) -> Seq<nat>
        decreases layer, 0nat,
    {
        if layer == 0 || self.mode == TrainMode::Unbucketed {
            Seq::new(self.xs.len(), |i: int| 0nat)
        } else {
            let above = self.slots((layer - 1) as nat);
            let models = self.models((layer - 1) as nat);
            Seq::new(
                self.xs.len(),
                |i: int|
                    (above[i] * self.b + child_index(
                        models[i].predict(self.xs[i]),
                        self.b,
                        self.ys[run_start(above, i)],
                        run_width(self.ys, run_start(above, i), run_end(above, i)),
                    )) as nat,
            )
        }
    }

    /// What the models of layer `layer` are fitted to: the positions, but
    /// for the second layer under `RootTargets`, which takes the root's
    /// predictions.
    pub open spec fn targets(self, layer: nat) -> Seq<u64>
        decreases layer, 1nat,
    {
        if layer == 1 && self.mode == TrainMode::RootTargets {
            let root = self.models(0);
            Seq::new(self.xs.len(), |i: int| root[i].predict(self.xs[i]))
        } else {
            self.ys
        }
    }

    /// For each pair, the model of layer `layer` that the pair reaches.
    pub open spec fn models(self, layer: nat) -> Seq<FormView>
        decreases layer, 2nat,
    {
        let slots = self.slots(layer);
        let targets = self.targets(layer);
        Seq::new(
            self.xs.len(),
            |i: int|
                fit(
                    self.kinds[layer as int],
                    self.xs,
                    targets,
                    run_start(slots, i),
                    run_end(slots, i),
                ),
        )
    }

    /// The position that layer `layer` predicts for each pair.
    pub open spec fn predictions(self, layer: nat) -> Seq<u64> {
        Seq::new(self.xs.len(), |i: int| self.models(layer)[i].predict(self.xs[i]))
    }

    /// The layer of the leaves.
    pub open spec fn last(self) -> nat {
        (self.kinds.len() - 1) as nat
    }

    /// What stops the training from layer `layer` on, if anything does: the
    /// first layer in which a slot cannot be written in 64 bits, or in
    /// which a pair has a smaller slot than the pair before it.
    pub open spec fn defect(self, layer: nat) -> Option<TrainError>
        decreases self.kinds.len() - layer,
    {
        if layer >= self.kinds.len() {
            None
        } else if exists|i: int| 0 <= i < self.n() && #[trigger] self.slots(layer)[i] > u64::MAX {
            Some(TrainError::BadBranchingFactor)
        } else if !ascending(self.slots(layer)) {
            Some(TrainError::NotMonotone)
        } else {
            self.defect(layer + 1)
        }
    }

    /// The plan can be carried out: the branching factor is not zero, and
    /// there is a layer to train.
    pub open spec fn feasible(self) -> bool {
        &&& self.b >= 1
        &&& self.xs.len() == self.ys.len()
        &&& self.kinds.len() >= 1
    }
}

} // verus!
