//! A trained index and the measures of its error.
use vstd::prelude::*;
use crate::cache_fix::{probe_window_near, window_given};
use crate::lookup::index_wf;
use crate::engine::{layer_matches, lemma_max_over_agrees, Node};
use crate::fit::{bit_length, bit_length_exec, lemma_sum_grows, max_over, sum_over};
use crate::plan::Plan;

verus! {

/// The distance between the prediction for pair `i` and its position.
pub open spec fn distance(preds: Seq<u64>, ys: Seq<u64>) -> spec_fn(int) -> nat {
    |i: int|
        if preds[i] >= ys[i] {
            (preds[i] - ys[i]) as nat
        } else {
            (ys[i] - preds[i]) as nat
        }
}

/// The square of the distance for pair `i`.
pub open spec fn distance_squared(preds: Seq<u64>, ys: Seq<u64>) -> spec_fn(int) -> nat {
    |i: int| distance(preds, ys)(i) * distance(preds, ys)(i)
}

/// The whole bits of a distance `e`: the logarithm to base two of `e + 1`,
/// rounded down. It is the number of halvings that a search over `e`
/// positions takes.
pub open spec fn log2_of(e: nat) -> nat {
    (bit_length(e + 1) - 1) as nat
}

/// The whole bits of the distance for pair `i`.
pub open spec fn distance_bits(preds: Seq<u64>, ys: Seq<u64>) -> spec_fn(int) -> nat {
    |i: int| log2_of(distance(preds, ys)(i))
}

/// The first index from `lo` up to `hi` at which `f` is largest; `lo` for an
/// empty range.
pub open spec fn first_max(lo: int, hi: int, f: spec_fn(int) -> nat) -> int
    decreases hi - lo,
{
    if hi <= lo {
        lo
    } else if f(hi - 1) > max_over(lo, hi - 1, f) {
        hi - 1
    } else {
        first_max(lo, hi - 1, f)
    }
}

/// `v`, or the largest 128-bit number where `v` is larger.
pub open spec fn capped(v: nat) -> u128 {
    if v > u128::MAX {
        u128::MAX
    } else {
        v as u128
    }
}

/// The measures of error over all pairs.
#[derive(Clone, Copy, Debug)]
pub struct ErrorTotals {
    /// The sum of the distances.
    pub total: u128,
    /// The sum of the squared distances, capped at the largest 128-bit
    /// number.
    pub total_l2: u128,
    /// The sum of the distances' whole bits.
    pub total_log2: u128,
    /// The largest distance.
    pub max: u64,
    /// The first pair at the largest distance.
    pub max_idx: usize,
    /// The whole bits of the largest distance.
    pub max_log2: u64,
}

impl ErrorTotals {
    /// The totals are those of the predictions against the positions.
    pub open spec fn measures(self, preds: Seq<u64>, ys: Seq<u64>) -> bool {
        let n = ys.len() as int;
        &&& self.total == sum_over(0, n, distance(preds, ys))
        &&& self.total_l2 == capped(sum_over(0, n, distance_squared(preds, ys)))
        &&& self.total_log2 == sum_over(0, n, distance_bits(preds, ys))
        &&& self.max == max_over(0, n, distance(preds, ys))
        &&& self.max_idx == first_max(0, n, distance(preds, ys))
        &&& self.max_log2 == log2_of(self.max as nat)
    }
}

/// The whole bits of a distance.
pub fn log2_exec(e: u64) -> (r: u64)
    ensures
        r == log2_of(e as nat),
        r <= 64,
{
    if e == u64::MAX {
        proof {
            lemma_bits_of_two_to_64();
        }
        64
    } else {
        let digits: u32 = bit_length_exec(e + 1);
        (digits - 1) as u64
    }
}

proof fn lemma_bits_of_two_to_64()
    ensures
        bit_length(0x1_0000_0000_0000_0000) == 65,
{
    reveal_with_fuel(bit_length, 66);
}

/// Measures the predictions against the positions.
pub fn measure(preds: &Vec<u64>, ys: &Vec<u64>) -> (r: ErrorTotals)
    requires
        preds@.len() == ys@.len(),
    ensures
        r.measures(preds@, ys@),
{
    let n: usize = ys.len();
    let ghost d = distance(preds@, ys@);
    let ghost d2 = distance_squared(preds@, ys@);
    let ghost db = distance_bits(preds@, ys@);
    let mut total: u128 = 0;
    let mut total_l2: u128 = 0;
    let mut total_log2: u128 = 0;
    let mut max: u64 = 0;
    let mut max_idx: usize = 0;
    let mut i: usize = 0;
    while i < n
        invariant
            i <= n,
            n == ys@.len(),
            preds@.len() == ys@.len(),
            d == distance(preds@, ys@),
            d2 == distance_squared(preds@, ys@),
            db == distance_bits(preds@, ys@),
            total == sum_over(0, i as int, d),
            total <= i * 0xffff_ffff_ffff_ffff,
            total_l2 == capped(sum_over(0, i as int, d2)),
            total_log2 == sum_over(0, i as int, db),
            total_log2 <= i * 64,
            max == max_over(0, i as int, d),
            max_idx == first_max(0, i as int, d),
            max_idx <= i,
        decreases n - i,
    {
        let e: u64 = if preds[i] >= ys[i] {
            preds[i] - ys[i]
        } else {
            ys[i] - preds[i]
        };
        let ew: u128 = e as u128;
        let bits: u64 = log2_exec(e);
        proof {
            assert(d(i as int) == e);
            assert(d2(i as int) == e * e);
            assert(db(i as int) == bits);
            assert(ew * ew <= 0xffff_ffff_ffff_ffff * 0xffff_ffff_ffff_ffff) by (nonlinear_arith)
                requires
                    ew <= 0xffff_ffff_ffff_ffff,
            ;
            assert((i + 1) * 0xffff_ffff_ffff_ffff <= 0xffff_ffff_ffff_ffff * 0xffff_ffff_ffff_ffff)
                by (nonlinear_arith)
                requires
                    i + 1 <= 0xffff_ffff_ffff_ffff,
            ;
        }
        total = total + ew;
        total_l2 = total_l2.saturating_add(ew * ew);
        total_log2 = total_log2 + bits as u128;
        if e > max {
            max = e;
            max_idx = i;
        }
        i += 1;
    }
    let max_log2: u64 = log2_exec(max);
    ErrorTotals { total, total_l2, total_log2, max, max_idx, max_log2 }
}

/// A trained index.
///
/// The measures of error are exact totals over all pairs; a mean is the
/// total divided by `num_data_rows`.
#[derive(Debug)]
pub struct TrainedRMI {
    /// The number of leaves that hold at least one pair.
    pub num_rmi_rows: usize,
    pub num_data_rows: usize,
    /// The sum over all pairs of the distance between the predicted and the
    /// true position.
    pub model_total_error: u128,
    /// The sum of the squared distances, capped at the largest 128-bit
    /// number.
    pub model_total_l2_error: u128,
    /// The sum of the distances' whole bits.
    pub model_total_log2_error: u128,
    pub model_max_error: u64,
    pub model_max_error_idx: usize,
    pub model_max_log2_error: u64,
    /// For each leaf, in order, the larger of its two radii.
    pub last_layer_max_l1s: Vec<u64>,
    /// For each model of the layer above the leaves, in order, the larger of
    /// its two radii; empty where the index has fewer than three layers.
    pub third_layer_max_l1s: Vec<u64>,
    /// The layers, the root first; each holds its models that are reached
    /// by at least one pair, in ascending order of slot.
    pub rmi: Vec<Vec<Node>>,
    /// The layer list that the index was trained from.
    pub models: String,
    pub branching_factor: u64,
    /// The line size and the spline of a bounded index.
    pub cache_fix: Option<(usize, Vec<(u64, usize)>)>,
    /// The time that training took, in nanoseconds.
    pub build_time: u128,
}

/// The larger radius of each node.
pub open spec fn max_radii(nodes: Seq<Node>) -> Seq<u64> {
    Seq::new(
        nodes.len(),
        |k: int|
            if nodes[k].left_radius >= nodes[k].right_radius {
                nodes[k].left_radius
            } else {
                nodes[k].right_radius
            },
    )
}

impl TrainedRMI {
    /// The totals as one value.
    pub open spec fn totals(&self) -> ErrorTotals {
        ErrorTotals {
            total: self.model_total_error,
            total_l2: self.model_total_l2_error,
            total_log2: self.model_total_log2_error,
            max: self.model_max_error,
            max_idx: self.model_max_error_idx,
            max_log2: self.model_max_log2_error,
        }
    }

    /// The index is built as the plan describes: its layers, the errors of
    /// its leaves' predictions, and the configuration. Nothing is said here
    /// of the number of data rows, the layer list's text, the build time or
    /// a spline.
    pub open spec fn built_by(&self, plan: Plan) -> bool {
        &&& self.rmi@.len() == plan.kinds.len()
        &&& forall|l: int|
            0 <= l < self.rmi@.len() ==> layer_matches((#[trigger] self.rmi@[l])@, plan, l as nat)
        &&& self.num_rmi_rows == self.rmi@[plan.last() as int]@.len()
        &&& self.totals().measures(plan.predictions(plan.last()), plan.ys)
        &&& self.last_layer_max_l1s@ == max_radii(self.rmi@[plan.last() as int]@)
        &&& self.third_layer_max_l1s@ == if plan.kinds.len() >= 3 {
            max_radii(self.rmi@[plan.last() - 1]@)
        } else {
            Seq::empty()
        }
        &&& self.branching_factor == plan.b
    }

    /// The index is built as the plan describes, and counts the plan's
    /// pairs as its data rows.
    pub open spec fn trained_by(&self, plan: Plan) -> bool {
        self.built_by(plan) && self.num_data_rows == plan.n()
    }

    /// The line size of a bounded index.
    pub open spec fn line_size(&self) -> usize {
        match self.cache_fix {
            Some(fix) => fix.0,
            None => 0,
        }
    }

    /// The spline of a bounded index.
    pub open spec fn spline(&self) -> Seq<(u64, usize)> {
        match self.cache_fix {
            Some(fix) => fix.1@,
            None => Seq::empty(),
        }
    }

    /// The window of positions that a lookup of `key` probes in the data of
    /// a bounded index; `None` for an index that is not bounded.
    ///
    /// The index is asked for the anchor near the key, and its radii say
    /// among which anchors the key's segment is sought first.
    pub fn bounded_lookup(&self, key: u64) -> (w: Option<(usize, usize)>)
        requires
            index_wf(*self),
        ensures
            w is Some <==> self.cache_fix is Some,
            w matches Some(w) ==> window_given(
                w,
                self.spline(),
                self.line_size(),
                self.num_data_rows,
                key,
            ),
    {
        match &self.cache_fix {
            Some(fix) => {
                let near = match self.lookup(key) {
                    Some(found) => {
                        let at: u64 = found.position;
                        let from: u64 = if at > found.left_radius {
                            at - found.left_radius
                        } else {
                            0
                        };
                        let to: u64 = at.saturating_add(found.right_radius);
                        if to > usize::MAX as u64 {
                            None
                        } else {
                            Some((from as usize, to as usize))
                        }
                    },
                    None => None,
                };
                Some(probe_window_near(&fix.1, fix.0, self.num_data_rows, key, near))
            },
            None => None,
        }
    }
}

/// The larger radius of each node, in order.
pub fn max_radii_exec(nodes: &Vec<Node>) -> (r: Vec<u64>)
    ensures
        r@ == max_radii(nodes@),
{
    let mut r: Vec<u64> = Vec::new();
    let mut k: usize = 0;
    while k < nodes.len()
        invariant
            k <= nodes@.len(),
            r@.len() == k,
            forall|j: int| 0 <= j < k ==> r@[j] == max_radii(nodes@)[j],
        decreases nodes@.len() - k,
    {
        let node = &nodes[k];
        r.push(
            if node.left_radius >= node.right_radius {
                node.left_radius
            } else {
                node.right_radius
            },
        );
        k += 1;
    }
    assert(r@ =~= max_radii(nodes@));
    r
}

} // verus!
