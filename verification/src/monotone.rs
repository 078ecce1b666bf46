//! Training on sorted keys never fails half way: every model that is
//! fitted to sorted keys gives its predictions in the keys' order, so that
//! every layer sends the pairs to slots in ascending order.
use vstd::prelude::*;
use vstd::arithmetic::power::{lemma_pow0, lemma_pow_increases, pow};
use crate::cache_fix::{is_first, lemma_spline, radius_of, sorted, spline_holds, spline_of};
use crate::data::KeyType;
use crate::fit::{big_line_fit, fit, line_fit, radix_fit, segments_fit};
use crate::models::{clamp_u64, first_above, interpolate, key_offset, FormView, ModelKind};
use crate::plan::{ascending, child_index, run_end, run_start, run_width, Plan, TrainMode};
use crate::data::RMITrainingData;
use crate::layers::{kinds_named, split_commas, valid_layers};
use crate::multi_layer::{plan_error, plan_of};
use crate::train::{anchor_pairs, bounded_outcome, keys_of, positions_of, train_outcome};
use crate::plan::lemma_run_end_bounds;

verus! {

/// A larger key never gets a smaller prediction.
pub open spec fn rising(form: FormView) -> bool {
    forall|a: u64, b: u64| a <= b ==> #[trigger] form.predict(a) <= #[trigger] form.predict(b)
}

/// A prediction picks a child below the branching factor.
pub proof fn lemma_child_index_bound(p: u64, b: u64, lo: u64, width: nat)
    requires
        b >= 1,
        width >= 1,
    ensures
        child_index(p, b, lo, width) < b,
{
    if p > lo {
        let x = (p - lo) * b;
        assert(x >= 0) by (nonlinear_arith)
            requires
                x == (p - lo) * b,
                p > lo,
                b >= 1,
        ;
        lemma_quotient_rises(0, x, width as int);
    }
}

/// A larger prediction never picks an earlier child.
pub proof fn lemma_child_index_rises(p: u64, q: u64, b: u64, lo: u64, width: nat)
    requires
        p <= q,
        b >= 1,
        width >= 1,
    ensures
        child_index(p, b, lo, width) <= child_index(q, b, lo, width),
{
    if p > lo {
        let w = width as int;
        let x = (p - lo) * b;
        let y = (q - lo) * b;
        assert(x <= y) by (nonlinear_arith)
            requires
                x == (p - lo) * b,
                y == (q - lo) * b,
                p <= q,
                b >= 1,
        ;
        lemma_quotient_rises(x, y, w);
    } else if q > lo {
        let y = (q - lo) * b;
        assert(y >= 0) by (nonlinear_arith)
            requires
                y == (q - lo) * b,
                q > lo,
                b >= 1,
        ;
        lemma_quotient_rises(0, y, width as int);
    }
}

/// Of two numbers divided by one divisor above zero, the larger has the
/// larger quotient.
pub proof fn lemma_quotient_rises(x: int, y: int, d: int)
    requires
        0 <= x <= y,
        d > 0,
    ensures
        0 <= x / d <= y / d,
{
    vstd::arithmetic::div_mod::lemma_div_is_ordered(x, y, d);
    vstd::arithmetic::div_mod::lemma_div_pos_is_pos(x, d);
}

/// A larger key has no smaller offset.
pub proof fn lemma_key_offset_rises(a: u64, b: u64, x0: u64, shift: u32)
    requires
        a <= b,
        shift < 64,
    ensures
        key_offset(a, x0, shift) <= key_offset(b, x0, shift),
{
    if a >= x0 {
        let u = (a - x0) as u64;
        let v = (b - x0) as u64;
        assert(u >> shift <= v >> shift) by (bit_vector)
            requires
                u <= v,
                shift < 64,
        ;
    }
}

/// A line that is well formed rises.
pub proof fn lemma_line_rises(form: FormView)
    requires
        form is Line,
        form.wf(),
    ensures
        rising(form),
{
    let x0 = form->Line_x0;
    let shift = form->Line_shift;
    let umax = form->Line_umax;
    let a = form->Line_a;
    let c_plus = form->Line_c_plus;
    let c_minus = form->Line_c_minus;
    let d = form->Line_d;
    assert forall|k1: u64, k2: u64| k1 <= k2 implies #[trigger] form.predict(k1)
        <= #[trigger] form.predict(k2) by {
        lemma_key_offset_rises(k1, k2, x0, shift);
        let o1 = key_offset(k1, x0, shift);
        let o2 = key_offset(k2, x0, shift);
        let u1 = if o1 < umax {
            o1
        } else {
            umax
        };
        let u2 = if o2 < umax {
            o2
        } else {
            umax
        };
        let t1 = a * u1 + c_plus;
        let t2 = a * u2 + c_plus;
        assert(a * u1 <= a * u2) by (nonlinear_arith)
            requires
                u1 <= u2,
                a >= 0,
        ;
        assert(a * u1 >= 0) by (nonlinear_arith)
            requires
                u1 >= 0,
                a >= 0,
        ;
        if t1 >= c_minus {
            lemma_quotient_rises(t1 - c_minus, t2 - c_minus, d as int);
        } else if t2 >= c_minus {
            lemma_quotient_rises(0, t2 - c_minus, d as int);
        }
    }
}

/// A radix model that is well formed rises.
pub proof fn lemma_radix_rises(form: FormView)
    requires
        form is Radix,
        form.wf(),
    ensures
        rising(form),
{
    let shift = form->Radix_shift;
    let top = form->Radix_top;
    let span = form->Radix_span;
    assert forall|k1: u64, k2: u64| k1 <= k2 implies #[trigger] form.predict(k1)
        <= #[trigger] form.predict(k2) by {
        assert(k1 >> shift <= k2 >> shift) by (bit_vector)
            requires
                k1 <= k2,
                shift < 64,
        ;
        let r1 = if (k1 >> shift) < top {
            k1 >> shift
        } else {
            top
        };
        let r2 = if (k2 >> shift) < top {
            k2 >> shift
        } else {
            top
        };
        assert(0 <= r1 * span <= r2 * span) by (nonlinear_arith)
            requires
                0 <= r1 <= r2,
                span >= 0,
        ;
        lemma_quotient_rises(r1 * span, r2 * span, top + 1);
    }
}

/// Where the search for the first anchor above a key starts later, it ends
/// no earlier; and it ends at the first anchor above the key.
proof fn lemma_first_above(xs: Seq<u64>, key: u64, from: nat)
    requires
        from <= xs.len(),
    ensures
        from <= first_above(xs, key, from) <= xs.len(),
        forall|j: int| from <= j < first_above(xs, key, from) ==> xs[j] <= key,
        first_above(xs, key, from) < xs.len() ==> xs[first_above(xs, key, from) as int] > key,
    decreases xs.len() - from,
{
    if !(from >= xs.len() || xs[from as int] > key) {
        lemma_first_above(xs, key, from + 1);
    }
}

/// The line between two anchors stays between their positions.
proof fn lemma_interpolate_between(xa: u64, ya: u64, xb: u64, yb: u64, key: u64)
    requires
        xa <= key < xb,
        ya <= yb,
    ensures
        ya <= interpolate(xa, ya, xb, yb, key) <= yb,
{
    let dx = key - xa;
    let w = xb - xa;
    let dy = yb - ya;
    assert(0 <= dx * dy <= w * dy) by (nonlinear_arith)
        requires
            0 <= dx <= w,
            dy >= 0,
    ;
    lemma_quotient_rises(dx * dy, w * dy, w);
    assert((w * dy) / w == dy) by (nonlinear_arith)
        requires
            w > 0,
    ;
}

/// Segments through anchors in ascending order rise.
pub proof fn lemma_segments_rise(form: FormView)
    requires
        form matches FormView::Segments { xs, ys } && sorted(xs) && sorted(ys),
        form.wf(),
    ensures
        rising(form),
{
    let xs = form->Segments_xs;
    let ys = form->Segments_ys;
    assert forall|k1: u64, k2: u64| k1 <= k2 implies #[trigger] form.predict(k1)
        <= #[trigger] form.predict(k2) by {
        lemma_first_above(xs, k1, 0);
        lemma_first_above(xs, k2, 0);
        let c1 = first_above(xs, k1, 0);
        let c2 = first_above(xs, k2, 0);
        let last = xs.len() - 1;
        // the anchor above the larger key stands no earlier
        assert(c1 <= c2) by {
            if c2 < c1 {
                assert(xs[c2 as int] <= k1);
            }
        }
        if 0 < c1 < xs.len() {
            lemma_interpolate_between(
                xs[c1 - 1],
                ys[c1 - 1],
                xs[c1 as int],
                ys[c1 as int],
                k1,
            );
        }
        if 0 < c2 < xs.len() {
            lemma_interpolate_between(
                xs[c2 - 1],
                ys[c2 - 1],
                xs[c2 as int],
                ys[c2 as int],
                k2,
            );
        }
        if c1 == c2 {
            if 0 < c1 < xs.len() {
                let dx1 = k1 - xs[c1 - 1];
                let dx2 = k2 - xs[c1 - 1];
                let w = xs[c1 as int] - xs[c1 - 1];
                let dy = ys[c1 as int] - ys[c1 - 1];
                assert(0 <= dx1 * dy <= dx2 * dy) by (nonlinear_arith)
                    requires
                        0 <= dx1 <= dx2,
                        dy >= 0,
                ;
                lemma_quotient_rises(dx1 * dy, dx2 * dy, w);
            }
        } else {
            // the smaller key's segment ends no later than the larger key's
            // begins
            if c1 == 0 {
                assert(ys[0] <= ys[c2 - 1]);
                assert(ys[0] <= ys[last]);
            } else {
                assert(ys[c1 as int] <= ys[c2 - 1]);
                assert(ys[c1 as int] <= ys[last]);
            }
        }
    }
}

/// The quantile indices of a run stand in ascending order inside the run.
proof fn lemma_quantile(lo: int, hi: int, segments: int, j: int, k: int)
    requires
        lo < hi,
        segments >= 1,
        0 <= j <= k <= segments,
    ensures
        lo <= lo + (j * (hi - lo - 1)) / segments <= lo + (k * (hi - lo - 1)) / segments <= hi - 1,
{
    let last = hi - lo - 1;
    assert(0 <= j * last <= k * last <= segments * last) by (nonlinear_arith)
        requires
            0 <= j <= k <= segments,
            last >= 0,
    ;
    lemma_quotient_rises(j * last, k * last, segments);
    lemma_quotient_rises(k * last, segments * last, segments);
    assert((segments * last) / segments == last) by (nonlinear_arith)
        requires
            segments > 0,
    ;
}

/// Segments fitted to a run of sorted keys and sorted positions rise.
pub proof fn lemma_segments_fit_rises(xs: Seq<u64>, ys: Seq<u64>, lo: int, hi: int, segments: int)
    requires
        sorted(xs),
        sorted(ys),
        xs.len() == ys.len(),
        0 <= lo < hi <= xs.len(),
        segments >= 1,
    ensures
        rising(segments_fit(xs, ys, lo, hi, segments)),
{
    let form = segments_fit(xs, ys, lo, hi, segments);
    let ax = form->Segments_xs;
    let ay = form->Segments_ys;
    assert forall|j: int, k: int| 0 <= j <= k < ax.len() implies ax[j] <= ax[k] by {
        lemma_quantile(lo, hi, segments, j, k);
    }
    assert forall|j: int, k: int| 0 <= j <= k < ay.len() implies ay[j] <= ay[k] by {
        lemma_quantile(lo, hi, segments, j, k);
    }
    lemma_segments_rise(form);
}

/// The least-squares line, wherever it can be had, rises.
proof fn lemma_line_fit_rises(xs: Seq<u64>, ys: Seq<u64>, lo: int, hi: int, trim: int, shift: u32)
    requires
        shift < 64,
        hi - lo - 2 * trim >= 1,
        line_fit(xs, ys, lo, hi, trim, shift) is Some,
    ensures
        rising(line_fit(xs, ys, lo, hi, trim, shift)->0),
{
    let form = line_fit(xs, ys, lo, hi, trim, shift)->0;
    match form {
        FormView::Line { a, d, umax, c_plus, .. } => {
            let n = hi - lo - 2 * trim;
            assert(d > 0 && a * umax + c_plus <= u128::MAX) by {
                let x0 = xs[lo];
                let y0 = ys[lo];
                let su = crate::fit::sum_over(lo + trim, hi - trim, crate::fit::term_u(xs, x0, shift));
                let suu = crate::fit::sum_over(
                    lo + trim,
                    hi - trim,
                    crate::fit::term_uu(xs, x0, shift),
                );
                let den = n * suu - su * su;
                assert(den * n > 0) by (nonlinear_arith)
                    requires
                        den > 0,
                        n >= 1,
                ;
                crate::fit::lemma_max_offset(xs, x0, shift, lo, hi);
            }
            lemma_line_rises(form);
        },
        _ => {
            assert(rising(form));
        },
    }
}

/// The line that the wide-range fit gives rises.
proof fn lemma_big_line_fit_rises(
    xs: Seq<u64>,
    ys: Seq<u64>,
    lo: int,
    hi: int,
    trim: int,
    shift: u32,
)
    requires
        sorted(xs),
        sorted(ys),
        xs.len() == ys.len(),
        0 <= lo < hi <= xs.len(),
        hi - lo - 2 * trim >= 1,
    ensures
        rising(big_line_fit(xs, ys, lo, hi, trim, shift)),
    decreases 64 - shift,
{
    if shift >= 64 {
        lemma_segments_fit_rises(xs, ys, lo, hi, 1);
    } else if line_fit(xs, ys, lo, hi, trim, shift) is Some {
        lemma_line_fit_rises(xs, ys, lo, hi, trim, shift);
    } else {
        lemma_big_line_fit_rises(xs, ys, lo, hi, trim, (shift + 1) as u32);
    }
}

/// Every model fitted to a run of sorted keys and sorted positions rises.
pub proof fn lemma_fit_rises(kind: ModelKind, xs: Seq<u64>, ys: Seq<u64>, lo: int, hi: int)
    requires
        sorted(xs),
        sorted(ys),
        xs.len() == ys.len(),
        xs.len() <= usize::MAX,
        0 <= lo <= hi <= xs.len(),
    ensures
        rising(fit(kind, xs, ys, lo, hi)),
{
    if hi >= lo + 2 {
        match kind {
            ModelKind::Linear | ModelKind::LinearBig => {
                lemma_big_line_fit_rises(xs, ys, lo, hi, 0, 0);
            },
            ModelKind::Cubic => {
                lemma_big_line_fit_rises(xs, ys, lo, hi, 0, 0);
                reveal(crate::curves::cubic_fit);
                let form = crate::curves::cubic_fit(xs, ys, lo, hi);
                if form != big_line_fit(xs, ys, lo, hi, 0, 0) {
                    lemma_segments_rise(form);
                }
            },
            ModelKind::Normal => {
                lemma_big_line_fit_rises(xs, ys, lo, hi, 0, 0);
                reveal(crate::curves::distribution_fit);
                let form = crate::curves::distribution_fit(xs, ys, lo, hi, false);
                if form != big_line_fit(xs, ys, lo, hi, 0, 0) {
                    lemma_segments_rise(form);
                }
            },
            ModelKind::Lognormal => {
                lemma_big_line_fit_rises(xs, ys, lo, hi, 0, 0);
                reveal(crate::curves::distribution_fit);
                let form = crate::curves::distribution_fit(xs, ys, lo, hi, true);
                if form != big_line_fit(xs, ys, lo, hi, 0, 0) {
                    lemma_segments_rise(form);
                }
            },
            ModelKind::Loglinear => {
                lemma_big_line_fit_rises(xs, ys, lo, hi, 0, 0);
                reveal(crate::curves::loglinear_fit);
                let form = crate::curves::loglinear_fit(xs, ys, lo, hi);
                if form != big_line_fit(xs, ys, lo, hi, 0, 0) {
                    lemma_segments_rise(form);
                }
            },
            ModelKind::RobustLinear => {
                lemma_big_line_fit_rises(xs, ys, lo, hi, (hi - lo) / 100, 0);
            },
            ModelKind::LinearSpline => {
                lemma_segments_fit_rises(xs, ys, lo, hi, 1);
            },
            ModelKind::Pwl => {
                lemma_segments_fit_rises(xs, ys, lo, hi, 28);
            },
            ModelKind::Pwl30 => {
                lemma_segments_fit_rises(xs, ys, lo, hi, 30);
            },
            _ => {
                let bits = crate::fit::radix_bits(kind, (hi - lo) as nat);
                let form = radix_fit(xs, ys, lo, hi, bits);
                vstd::arithmetic::power2::lemma2_to64_rest();
                crate::fit::lemma_bit_length_bound(xs[hi - 1] as nat, 64);
                crate::fit::lemma_bit_length_bound((hi - lo) as nat, 64);
                assert(bits >= 1);
                lemma_radix_rises(form);
            },
        }
    }
}

/// A run starts at or before each of its indices, and not before the
/// sequence.
proof fn lemma_run_start_bounds(slots: Seq<nat>, i: int)
    requires
        0 <= i < slots.len(),
    ensures
        0 <= run_start(slots, i) <= i,
    decreases i,
{
    if !(i <= 0 || slots[i - 1] != slots[i]) {
        lemma_run_start_bounds(slots, i - 1);
    }
}

/// What holds of a layer of a plan over sorted data: its slots ascend and
/// stay below the branching factor to the power of the layer, what its
/// models are fitted to is sorted, and every model of it rises.
pub open spec fn layer_ascends(plan: Plan, layer: nat) -> bool {
    &&& ascending(plan.slots(layer))
    &&& forall|i: int| 0 <= i < plan.n() ==> #[trigger] plan.slots(layer)[i] < pow(plan.b as int, layer)
    &&& sorted(plan.targets(layer))
    &&& plan.targets(layer).len() == plan.n()
    &&& forall|i: int| 0 <= i < plan.n() ==> rising(#[trigger] plan.models(layer)[i])
}

proof fn lemma_models_rise(plan: Plan, layer: nat)
    requires
        plan.feasible(),
        sorted(plan.xs),
        plan.xs.len() <= usize::MAX,
        layer < plan.kinds.len(),
        sorted(plan.targets(layer)),
        plan.targets(layer).len() == plan.n(),
    ensures
        forall|i: int| 0 <= i < plan.n() ==> rising(#[trigger] plan.models(layer)[i]),
{
    let slots = plan.slots(layer);
    assert(slots.len() == plan.n());
    assert forall|i: int| 0 <= i < plan.n() implies rising(#[trigger] plan.models(layer)[i]) by {
        lemma_run_start_bounds(slots, i);
        lemma_run_end_bounds(slots, i);
        lemma_fit_rises(
            plan.kinds[layer as int],
            plan.xs,
            plan.targets(layer),
            run_start(slots, i),
            run_end(slots, i),
        );
    }
}

/// Every layer of a plan over sorted keys and positions ascends.
pub proof fn lemma_layer_ascends(plan: Plan, layer: nat)
    requires
        plan.feasible(),
        sorted(plan.xs),
        sorted(plan.ys),
        plan.xs.len() <= usize::MAX,
        layer < plan.kinds.len(),
    ensures
        layer_ascends(plan, layer),
    decreases layer,
{
    let n = plan.n();
    let b = plan.b as int;
    if layer == 0 || plan.mode == TrainMode::Unbucketed {
        lemma_pow0(b);
        vstd::arithmetic::power::lemma_pow_positive(b, layer);
        if layer > 0 {
            lemma_layer_ascends(plan, (layer - 1) as nat);
        }
        lemma_models_rise(plan, layer);
    } else {
        let up = (layer - 1) as nat;
        lemma_layer_ascends(plan, up);
        let above = plan.slots(up);
        let models = plan.models(up);
        let slots = plan.slots(layer);
        assert(above.len() == n);
        assert(slots.len() == n);
        vstd::arithmetic::power::lemma_pow_positive(b, up);
        assert(pow(b, layer) == b * pow(b, up)) by {
            reveal(pow);
        }
        // what the models of this layer are fitted to
        if layer == 1 && plan.mode == TrainMode::RootTargets {
            let root = plan.models(0);
            let tg = plan.targets(1);
            assert forall|i: int, j: int| 0 <= i <= j < tg.len() implies tg[i] <= tg[j] by {
                // all pairs reach the one root
                assert(plan.slots(0)[i] == 0 && plan.slots(0)[j] == 0);
                lemma_same_run(plan.slots(0), i, j);
                assert(root[i] == root[j]);
                assert(rising(root[i]));
                assert(plan.xs[i] <= plan.xs[j]);
            }
        }
        assert forall|i: int| 0 <= i < n implies #[trigger] slots[i] < pow(b, layer) by {
            lemma_run_start_bounds(above, i);
            lemma_run_end_bounds(above, i);
            let c = child_index(
                models[i].predict(plan.xs[i]),
                plan.b,
                plan.ys[run_start(above, i)],
                run_width(plan.ys, run_start(above, i), run_end(above, i)),
            );
            lemma_child_index_bound(
                models[i].predict(plan.xs[i]),
                plan.b,
                plan.ys[run_start(above, i)],
                run_width(plan.ys, run_start(above, i), run_end(above, i)),
            );
            assert(above[i] * b + c < b * pow(b, up)) by (nonlinear_arith)
                requires
                    0 <= above[i] < pow(b, up),
                    0 <= c < b,
            ;
        }
        assert forall|i: int| 0 <= i < slots.len() - 1 implies slots[i] <= #[trigger] slots[i
            + 1] by {
            let j = i + 1;
            lemma_run_start_bounds(above, i);
            lemma_run_end_bounds(above, i);
            lemma_run_start_bounds(above, j);
            lemma_run_end_bounds(above, j);
            let ci = child_index(
                models[i].predict(plan.xs[i]),
                plan.b,
                plan.ys[run_start(above, i)],
                run_width(plan.ys, run_start(above, i), run_end(above, i)),
            );
            let cj = child_index(
                models[j].predict(plan.xs[j]),
                plan.b,
                plan.ys[run_start(above, j)],
                run_width(plan.ys, run_start(above, j), run_end(above, j)),
            );
            lemma_child_index_bound(
                models[i].predict(plan.xs[i]),
                plan.b,
                plan.ys[run_start(above, i)],
                run_width(plan.ys, run_start(above, i), run_end(above, i)),
            );
            assert(above[i] <= above[i + 1]);
            if above[i] == above[j] {
                lemma_same_run(above, i, j);
                assert(models[i] == models[j]);
                assert(rising(models[i]));
                assert(plan.xs[i] <= plan.xs[j]);
                lemma_child_index_rises(
                    models[i].predict(plan.xs[i]),
                    models[j].predict(plan.xs[j]),
                    plan.b,
                    plan.ys[run_start(above, i)],
                    run_width(plan.ys, run_start(above, i), run_end(above, i)),
                );
            } else {
                assert(above[i] * b + ci <= above[j] * b + cj) by (nonlinear_arith)
                    requires
                        0 <= above[i] < above[j],
                        0 <= ci < b,
                        0 <= cj,
                ;
            }
        }
        lemma_models_rise(plan, layer);
    }
}

/// Two indices next to each other, or any two of a sequence of equal
/// slots, that hold the same slot lie in one run.
proof fn lemma_same_run(slots: Seq<nat>, i: int, j: int)
    requires
        0 <= i <= j < slots.len(),
        forall|k: int| i <= k <= j ==> slots[k] == slots[i],
    ensures
        run_start(slots, i) == run_start(slots, j),
        run_end(slots, i) == run_end(slots, j),
    decreases j - i,
{
    if i < j {
        lemma_same_run(slots, i, j - 1);
        assert(slots[j - 1] == slots[j]);
        assert(run_start(slots, j) == run_start(slots, j - 1));
        assert(run_end(slots, j - 1) == run_end(slots, j));
    }
}

/// From a layer on, a plan over sorted data has no defect.
proof fn lemma_no_defect_from(plan: Plan, layer: nat)
    requires
        plan.feasible(),
        sorted(plan.xs),
        sorted(plan.ys),
        plan.xs.len() <= usize::MAX,
        plan.mode == TrainMode::Unbucketed || pow(plan.b as int, (plan.kinds.len() - 1) as nat)
            <= 0x1_0000_0000_0000_0000,
    ensures
        plan.defect(layer) is None,
    decreases plan.kinds.len() - layer,
{
    if layer < plan.kinds.len() {
        lemma_layer_ascends(plan, layer);
        lemma_no_defect_from(plan, layer + 1);
        assert forall|i: int| 0 <= i < plan.n() implies !(#[trigger] plan.slots(layer)[i]
            > u64::MAX) by {
            if plan.mode != TrainMode::Unbucketed {
                lemma_pow_increases(plan.b as nat, layer, (plan.kinds.len() - 1) as nat);
            }
        }
    }
}

/// Training on sorted data succeeds: a plan over sorted keys and positions
/// whose branching factor is not zero, and whose last layer has no more slots than 64 bits can count, has no
/// error.
pub proof fn lemma_sorted_data_trains(plan: Plan)
    requires
        plan.xs.len() == plan.ys.len(),
        plan.xs.len() <= usize::MAX,
        plan.kinds.len() >= 1,
        plan.b >= 1,
        sorted(plan.xs),
        sorted(plan.ys),
        plan.mode == TrainMode::Unbucketed || pow(plan.b as int, (plan.kinds.len() - 1) as nat)
            <= 0x1_0000_0000_0000_0000,
    ensures
        plan_error(plan) is None,
{
    lemma_no_defect_from(plan, 0);
}

/// The layer list is valid, the branching factor is not zero, and the last
/// layer has no more slots than 64 bits can count.
pub open spec fn trainable(model_spec: Seq<char>, b: u64) -> bool {
    &&& valid_layers(split_commas(model_spec))
    &&& b >= 1
    &&& pow(b as int, (split_commas(model_spec).len() - 1) as nat) <= 0x1_0000_0000_0000_0000
}

/// Training succeeds on pairs whose keys and positions both stand in
/// ascending order, with a layer list and a branching factor that can be
/// trained.
pub proof fn lemma_pairs_train(pairs: Seq<(u64, usize)>, model_spec: Seq<char>, b: u64)
    requires
        trainable(model_spec, b),
        sorted(keys_of(pairs)),
        sorted(positions_of(pairs)),
        pairs.len() <= usize::MAX,
    ensures
        train_outcome(pairs, model_spec, b) is Ok,
{
    let names = split_commas(model_spec);
    crate::layers::lemma_split_nonempty(model_spec);
    assert forall|i: int| 0 <= i < names.len() implies (#[trigger] ModelKind::named(names[i])) is Some by {
    }
    let kinds = kinds_named(names)->0;
    let plan = plan_of(pairs, kinds, b, TrainMode::Bucketed);
    lemma_sorted_data_trains(plan);
}

/// Training sorted data succeeds: where the layer list and the branching
/// factor can be trained and the keys stand in ascending order, `train`
/// gives an index.
pub proof fn lemma_train_succeeds(data: RMITrainingData, model_spec: Seq<char>, b: u64)
    requires
        trainable(model_spec, b),
        sorted(keys_of(data@)),
    ensures
        train_outcome(data@, model_spec, b) is Ok,
{
    data.lemma_positions_ascend();
    let ys = positions_of(data@);
    assert forall|i: int, j: int| 0 <= i <= j < ys.len() implies ys[i] <= ys[j] by {
        assert(data@[i].1 <= data@[j].1);
    }
    lemma_pairs_train(data@, model_spec, b);
}

/// The keys of a spline's anchors stand in ascending order.
proof fn lemma_anchors_ascend(spline: Seq<(u64, usize)>, keys: Seq<u64>, e: int, j: int, k: int)
    requires
        sorted(keys),
        spline_holds(spline, keys, e),
        0 <= j <= k < spline.len(),
    ensures
        spline[j].0 <= spline[k].0,
        spline[j].1 <= spline[k].1,
    decreases k - j,
{
    if j < k {
        lemma_anchors_ascend(spline, keys, e, j, k - 1);
        assert(spline[k - 1].1 < spline[k].1);
        assert(spline[k - 1].0 == keys[spline[k - 1].1 as int]);
        assert(spline[k].0 == keys[spline[k].1 as int]);
        assert(is_first(keys, spline[k].1 as int));
    }
}

/// Training a bounded index on sorted data succeeds: where the keys are
/// 64-bit integers in ascending order, the line has at least one position,
/// and the layer list and the branching factor can be trained,
/// `train_bounded` gives an index.
pub proof fn lemma_train_bounded_succeeds(
    keys: Seq<u64>,
    model_spec: Seq<char>,
    b: u64,
    line_size: usize,
)
    requires
        trainable(model_spec, b),
        sorted(keys),
        keys.len() <= usize::MAX,
        line_size >= 1,
    ensures
        bounded_outcome(KeyType::U64, keys, model_spec, b, line_size) is Ok,
{
    let e = radius_of(line_size) as int;
    let spline = spline_of(keys, e);
    let pairs = anchor_pairs(spline);
    if keys.len() > 0 {
        lemma_spline(keys, e);
        assert forall|j: int, k: int| 0 <= j <= k < pairs.len() implies keys_of(pairs)[j]
            <= keys_of(pairs)[k] by {
            lemma_anchors_ascend(spline, keys, e, j, k);
        }
        lemma_spline_length(keys, e);
    } else {
        assert(spline.len() == 0);
    }
    assert forall|j: int, k: int| 0 <= j <= k < pairs.len() implies positions_of(pairs)[j]
        <= positions_of(pairs)[k] by {
    }
    lemma_pairs_train(pairs, model_spec, b);
}

/// A spline has no more anchors than there are keys.
proof fn lemma_spline_length(keys: Seq<u64>, e: int)
    requires
        sorted(keys),
        1 <= keys.len() <= usize::MAX,
        e >= 0,
    ensures
        spline_of(keys, e).len() <= keys.len(),
{
    let spline = spline_of(keys, e);
    lemma_spline(keys, e);
    lemma_anchor_positions(spline, keys, e, spline.len() - 1);
}

/// The anchor at index `k` stands at position `k` or later.
proof fn lemma_anchor_positions(spline: Seq<(u64, usize)>, keys: Seq<u64>, e: int, k: int)
    requires
        spline_holds(spline, keys, e),
        0 <= k < spline.len(),
    ensures
        k <= spline[k].1 < keys.len(),
    decreases k,
{
    assert(is_first(keys, spline[k].1 as int));
    if k > 0 {
        lemma_anchor_positions(spline, keys, e, k - 1);
        assert(spline[k - 1].1 < spline[k].1);
    }
}

} // verus!
