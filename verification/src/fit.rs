//! Fitting each kind of model to a run of points.
//!
//! A run is the points `(xs[i], ys[i])` for `lo <= i < hi`: keys with the
//! positions that the model is to give for them.
use vstd::prelude::*;
use crate::curves::{
    cubic_fit, cubic_fit_exec, distribution_fit, distribution_fit_exec, loglinear_fit,
    loglinear_fit_exec,
};
use crate::models::{clamp_u64, key_offset, FormView, ModelForm, ModelKind};

verus! {

/// The sum of `f(i)` for `lo <= i < hi`.
pub open spec fn sum_over(lo: int, hi: int, f: spec_fn(int) -> nat) -> nat
    decreases hi - lo,
{
    if hi <= lo {
        0
    } else {
        sum_over(lo, hi - 1, f) + f(hi - 1)
    }
}

/// The largest `f(i)` for `lo <= i < hi`; zero for an empty range.
pub open spec fn max_over(lo: int, hi: int, f: spec_fn(int) -> nat) -> nat
    decreases hi - lo,
{
    if hi <= lo {
        0
    } else {
        let m = max_over(lo, hi - 1, f);
        if f(hi - 1) > m {
            f(hi - 1)
        } else {
            m
        }
    }
}

/// A sum over fewer terms is no larger.
pub proof fn lemma_sum_grows(lo: int, mid: int, hi: int, f: spec_fn(int) -> nat)
    requires
        lo <= mid <= hi,
    ensures
        sum_over(lo, mid, f) <= sum_over(lo, hi, f),
    decreases hi - mid,
{
    if mid < hi {
        lemma_sum_grows(lo, mid, hi - 1, f);
    }
}

/// The key's offset at index `i`.
pub open spec fn term_u(xs: Seq<u64>, x0: u64, shift: u32) -> spec_fn(int) -> nat {
    |i: int| key_offset(xs[i], x0, shift) as nat
}

/// How far the position at index `i` lies above `y0`; zero below it.
pub open spec fn term_v(ys: Seq<u64>, y0: u64) -> spec_fn(int) -> nat {
    |i: int|
        if ys[i] >= y0 {
            (ys[i] - y0) as nat
        } else {
            0
        }
}

pub open spec fn term_uu(xs: Seq<u64>, x0: u64, shift: u32) -> spec_fn(int) -> nat {
    |i: int| term_u(xs, x0, shift)(i) * term_u(xs, x0, shift)(i)
}

pub open spec fn term_uv(xs: Seq<u64>, ys: Seq<u64>, x0: u64, y0: u64, shift: u32) -> spec_fn(
    int,
) -> nat {
    |i: int| term_u(xs, x0, shift)(i) * term_v(ys, y0)(i)
}

/// The least-squares line through the points of the run but the `trim`
/// first and the `trim` last, in exact rational arithmetic, where every
/// sum and product of it fits in 128 bits; `None` where one does not.
///
/// Keys are measured from the run's first key in units of `2^shift`,
/// positions from the run's first position. A slope below zero counts as
/// zero. Where all the keys are one, the line is the mean position.
pub open spec fn line_fit(
    xs: Seq<u64>,
    ys: Seq<u64>,
    lo: int,
    hi: int,
    trim: int,
    shift: u32,
) -> Option<FormView> {
    let x0 = xs[lo];
    let y0 = ys[lo];
    let n = hi - lo - 2 * trim;
    let su = sum_over(lo + trim, hi - trim, term_u(xs, x0, shift));
    let sv = sum_over(lo + trim, hi - trim, term_v(ys, y0));
    let suu = sum_over(lo + trim, hi - trim, term_uu(xs, x0, shift));
    let suv = sum_over(lo + trim, hi - trim, term_uv(xs, ys, x0, y0, shift));
    let umax = max_over(lo, hi, term_u(xs, x0, shift));
    if suu > u128::MAX || suv > u128::MAX || n * suv > u128::MAX || su * sv > u128::MAX || n * suu
        > u128::MAX || su * su > u128::MAX {
        None
    } else if n * suu <= su * su {
        Some(FormView::Constant { value: clamp_u64(y0 + sv / (n as nat)) })
    } else {
        let num = if n * suv >= su * sv {
            n * suv - su * sv
        } else {
            0
        };
        let den = n * suu - su * su;
        if num * n > u128::MAX || den * n > u128::MAX || sv * den > u128::MAX || num * su
            > u128::MAX || num * n * umax > u128::MAX || num * n * umax + sv * den > u128::MAX {
            None
        } else {
            Some(
                FormView::Line {
                    x0,
                    shift,
                    y0,
                    umax: umax as u64,
                    a: (num * n) as u128,
                    c_plus: (sv * den) as u128,
                    c_minus: (num * su) as u128,
                    d: (den * n) as u128,
                },
            )
        }
    }
}

/// The largest offset is that of some key, so it fits in 64 bits.
pub proof fn lemma_max_offset(xs: Seq<u64>, x0: u64, shift: u32, lo: int, hi: int)
    ensures
        max_over(lo, hi, term_u(xs, x0, shift)) <= u64::MAX,
    decreases hi - lo,
{
    if lo < hi {
        lemma_max_offset(xs, x0, shift, lo, hi - 1);
    }
}

fn line_fit_exec(
    xs: &Vec<u64>,
    ys: &Vec<u64>,
    lo: usize,
    hi: usize,
    trim: usize,
    shift: u32,
) -> (r: Option<ModelForm>)
    requires
        lo < hi <= xs@.len(),
        xs@.len() == ys@.len(),
        2 * trim < hi - lo,
        shift < 64,
    ensures
        match (r, line_fit(xs@, ys@, lo as int, hi as int, trim as int, shift)) {
            (Some(m), Some(v)) => m@ == v && v.wf(),
            (None, None) => true,
            _ => false,
        },
{
    let x0: u64 = xs[lo];
    let y0: u64 = ys[lo];
    let from: usize = lo + trim;
    let to: usize = hi - trim;
    let n: u128 = (to - from) as u128;
    let ghost tu = term_u(xs@, x0, shift);
    let ghost tv = term_v(ys@, y0);
    let ghost tuu = term_uu(xs@, x0, shift);
    let ghost tuv = term_uv(xs@, ys@, x0, y0, shift);
    // the largest offset, over the whole run
    let mut umax: u64 = 0;
    let mut i: usize = lo;
    while i < hi
        invariant
            lo <= i <= hi <= xs@.len(),
            shift < 64,
            tu == term_u(xs@, x0, shift),
            umax == max_over(lo as int, i as int, tu),
        decreases hi - i,
    {
        let u: u64 = if xs[i] >= x0 {
            (xs[i] - x0) >> shift
        } else {
            0
        };
        if u > umax {
            umax = u;
        }
        i += 1;
    }
    let mut su: u128 = 0;
    let mut sv: u128 = 0;
    let mut suu: u128 = 0;
    let mut suv: u128 = 0;
    let mut i: usize = from;
    while i < to
        invariant
            from <= i <= to <= xs@.len(),
            xs@.len() == ys@.len(),
            shift < 64,
            from == lo + trim,
            to == hi - trim,
            lo < hi,
            x0 == xs@[lo as int],
            y0 == ys@[lo as int],
            tu == term_u(xs@, x0, shift),
            tv == term_v(ys@, y0),
            tuu == term_uu(xs@, x0, shift),
            tuv == term_uv(xs@, ys@, x0, y0, shift),
            su == sum_over(from as int, i as int, tu),
            sv == sum_over(from as int, i as int, tv),
            suu == sum_over(from as int, i as int, tuu),
            suv == sum_over(from as int, i as int, tuv),
            su <= (i - from) * 0xffff_ffff_ffff_ffff,
            sv <= (i - from) * 0xffff_ffff_ffff_ffff,
        decreases to - i,
    {
        let u: u64 = if xs[i] >= x0 {
            (xs[i] - x0) >> shift
        } else {
            0
        };
        let v: u64 = if ys[i] >= y0 {
            ys[i] - y0
        } else {
            0
        };
        let uw: u128 = u as u128;
        let vw: u128 = v as u128;
        proof {
            assert(tu(i as int) == u);
            assert(tv(i as int) == v);
            assert(tuu(i as int) == u * u);
            assert(tuv(i as int) == u * v);
            assert(uw * uw <= 0xffff_ffff_ffff_ffff * 0xffff_ffff_ffff_ffff) by (nonlinear_arith)
                requires
                    uw <= 0xffff_ffff_ffff_ffff,
            ;
            assert(uw * vw <= 0xffff_ffff_ffff_ffff * 0xffff_ffff_ffff_ffff) by (nonlinear_arith)
                requires
                    uw <= 0xffff_ffff_ffff_ffff,
                    vw <= 0xffff_ffff_ffff_ffff,
            ;
            assert((i - from + 1) * 0xffff_ffff_ffff_ffff <= 0xffff_ffff_ffff_ffff
                * 0xffff_ffff_ffff_ffff) by (nonlinear_arith)
                requires
                    i - from + 1 <= 0xffff_ffff_ffff_ffff,
            ;
            assert((i - from + 1) * 0xffff_ffff_ffff_ffff == (i - from) * 0xffff_ffff_ffff_ffff
                + 0xffff_ffff_ffff_ffff) by (nonlinear_arith);
            lemma_sum_grows(from as int, i + 1, to as int, tuu);
            lemma_sum_grows(from as int, i + 1, to as int, tuv);
        }
        su = su + uw;
        sv = sv + vw;
        match suu.checked_add(uw * uw) {
            Some(t) => {
                suu = t;
            },
            None => {
                return None;
            },
        }
        match suv.checked_add(uw * vw) {
            Some(t) => {
                suv = t;
            },
            None => {
                return None;
            },
        }
        i += 1;
    }
    let n_suv: u128 = match n.checked_mul(suv) {
        Some(t) => t,
        None => {
            return None;
        },
    };
    let su_sv: u128 = match su.checked_mul(sv) {
        Some(t) => t,
        None => {
            return None;
        },
    };
    let n_suu: u128 = match n.checked_mul(suu) {
        Some(t) => t,
        None => {
            return None;
        },
    };
    let su_su: u128 = match su.checked_mul(su) {
        Some(t) => t,
        None => {
            return None;
        },
    };
    if n_suu <= su_su {
        let mean: u128 = sv / n;
        let value: u64 = if mean > u64::MAX as u128 {
            u64::MAX
        } else {
            let w: u128 = y0 as u128 + mean;
            if w > u64::MAX as u128 {
                u64::MAX
            } else {
                w as u64
            }
        };
        return Some(ModelForm::Constant { value });
    }
    let num: u128 = if n_suv >= su_sv {
        n_suv - su_sv
    } else {
        0
    };
    let den: u128 = n_suu - su_su;
    let a: u128 = match num.checked_mul(n) {
        Some(t) => t,
        None => {
            return None;
        },
    };
    let d: u128 = match den.checked_mul(n) {
        Some(t) => t,
        None => {
            return None;
        },
    };
    let c_plus: u128 = match sv.checked_mul(den) {
        Some(t) => t,
        None => {
            return None;
        },
    };
    let c_minus: u128 = match num.checked_mul(su) {
        Some(t) => t,
        None => {
            return None;
        },
    };
    let a_umax: u128 = match a.checked_mul(umax as u128) {
        Some(t) => t,
        None => {
            return None;
        },
    };
    if a_umax.checked_add(c_plus).is_none() {
        return None;
    }
    proof {
        assert(den > 0 && n > 0);
        assert(d > 0) by (nonlinear_arith)
            requires
                den > 0,
                n > 0,
                d == den * n,
        ;
    }
    Some(ModelForm::Line { x0, shift, y0, umax, a, c_plus, c_minus, d })
}

/// The anchors of `segments` straight pieces over the run: the points at the
/// indices that cut the run into pieces of equal population.
pub open spec fn segments_fit(xs: Seq<u64>, ys: Seq<u64>, lo: int, hi: int, segments: int) -> FormView {
    FormView::Segments {
        xs: Seq::new((segments + 1) as nat, |j: int| xs[lo + (j * (hi - lo - 1)) / segments]),
        ys: Seq::new((segments + 1) as nat, |j: int| ys[lo + (j * (hi - lo - 1)) / segments]),
    }
}

fn segments_fit_exec(xs: &Vec<u64>, ys: &Vec<u64>, lo: usize, hi: usize, segments: u32) -> (r:
    ModelForm)
    requires
        lo < hi <= xs@.len(),
        xs@.len() == ys@.len(),
        1 <= segments <= 64,
    ensures
        r@ == segments_fit(xs@, ys@, lo as int, hi as int, segments as int),
        r@.wf(),
{
    let mut ax: Vec<u64> = Vec::new();
    let mut ay: Vec<u64> = Vec::new();
    let last: u128 = (hi - lo - 1) as u128;
    let mut j: u32 = 0;
    while j <= segments
        invariant
            lo < hi <= xs@.len(),
            xs@.len() == ys@.len(),
            1 <= segments <= 64,
            last == hi - lo - 1,
            j <= segments + 1,
            ax@.len() == j,
            ay@.len() == j,
            forall|k: int| 0 <= k < j ==> ax@[k] == xs@[lo + (k * last) / (segments as int)],
            forall|k: int| 0 <= k < j ==> ay@[k] == ys@[lo + (k * last) / (segments as int)],
        decreases segments + 1 - j,
    {
        let jw: u128 = j as u128;
        assert(jw * last <= 64 * 0xffff_ffff_ffff_ffff) by (nonlinear_arith)
            requires
                jw <= 64,
                last <= 0xffff_ffff_ffff_ffff,
        ;
        let step: u128 = (jw * last) / (segments as u128);
        assert(step <= last) by (nonlinear_arith)
            requires
                step == (jw * last) / (segments as int),
                jw <= segments,
                segments >= 1,
                last >= 0,
        ;
        let at: usize = lo + step as usize;
        ax.push(xs[at]);
        ay.push(ys[at]);
        j += 1;
    }
    let r = ModelForm::Segments { xs: ax, ys: ay };
    proof {
        let want = segments_fit(xs@, ys@, lo as int, hi as int, segments as int);
        assert(ax@ =~= want->Segments_xs);
        assert(ay@ =~= want->Segments_ys);
    }
    r
}

/// The least-squares line at the least shift, from `shift` on, at which it
/// can be had; the line through the run's ends where no shift will do.
pub open spec fn big_line_fit(
    xs: Seq<u64>,
    ys: Seq<u64>,
    lo: int,
    hi: int,
    trim: int,
    shift: u32,
) -> FormView
    decreases 64 - shift,
{
    if shift >= 64 {
        segments_fit(xs, ys, lo, hi, 1)
    } else {
        match line_fit(xs, ys, lo, hi, trim, shift) {
            Some(v) => v,
            None => big_line_fit(xs, ys, lo, hi, trim, (shift + 1) as u32),
        }
    }
}

pub(crate) fn big_line_fit_exec(
    xs: &Vec<u64>,
    ys: &Vec<u64>,
    lo: usize,
    hi: usize,
    trim: usize,
    start: u32,
) -> (r: ModelForm)
    requires
        lo < hi <= xs@.len(),
        xs@.len() == ys@.len(),
        2 * trim < hi - lo,
        start <= 64,
    ensures
        r@ == big_line_fit(xs@, ys@, lo as int, hi as int, trim as int, start),
        r@.wf(),
{
    let mut shift: u32 = start;
    while shift < 64
        invariant
            lo < hi <= xs@.len(),
            xs@.len() == ys@.len(),
            2 * trim < hi - lo,
            shift <= 64,
            big_line_fit(xs@, ys@, lo as int, hi as int, trim as int, start) == big_line_fit(
                xs@,
                ys@,
                lo as int,
                hi as int,
                trim as int,
                shift,
            ),
        decreases 64 - shift,
    {
        match line_fit_exec(xs, ys, lo, hi, trim, shift) {
            Some(m) => {
                return m;
            },
            None => {},
        }
        shift += 1;
    }
    segments_fit_exec(xs, ys, lo, hi, 1)
}

/// The number of binary digits of `x`.
pub open spec fn bit_length(x: nat) -> nat
    decreases x,
{
    if x == 0 {
        0
    } else {
        1 + bit_length(x / 2)
    }
}

/// A number below `2^k` has at most `k` digits.
pub proof fn lemma_bit_length_bound(x: nat, k: nat)
    requires
        x < vstd::arithmetic::power2::pow2(k),
    ensures
        bit_length(x) <= k,
    decreases x,
{
    if x > 0 {
        if k == 0 {
            vstd::arithmetic::power2::lemma2_to64();
        } else {
            vstd::arithmetic::power2::lemma_pow2_unfold(k);
            lemma_bit_length_bound(x / 2, (k - 1) as nat);
        }
    }
}

pub fn bit_length_exec(x: u64) -> (r: u32)
    ensures
        r == bit_length(x as nat),
        r <= 64,
{
    proof {
        vstd::arithmetic::power2::lemma2_to64();
        vstd::arithmetic::power2::lemma2_to64_rest();
        lemma_bit_length_bound(x as nat, 64);
    }
    let mut v: u64 = x;
    let mut c: u32 = 0;
    while v > 0
        invariant
            bit_length(x as nat) == c + bit_length(v as nat),
            bit_length(x as nat) <= 64,
        decreases v,
    {
        v = v / 2;
        c += 1;
    }
    c
}

/// The radix model of `bits` leading bits: the largest key of the run, its
/// last, fixes which bits lead; the positions of the run's ends fix the
/// range that the bits are spread over.
pub open spec fn radix_fit(xs: Seq<u64>, ys: Seq<u64>, lo: int, hi: int, bits: u32) -> FormView {
    let digits = bit_length(xs[hi - 1] as nat);
    let shift = if digits > bits {
        (digits - bits) as u32
    } else {
        0u32
    };
    FormView::Radix {
        shift,
        top: xs[hi - 1] >> shift,
        y0: ys[lo],
        span: if ys[hi - 1] >= ys[lo] {
            clamp_u64(ys[hi - 1] - ys[lo] + 1)
        } else {
            1
        },
    }
}

fn radix_fit_exec(xs: &Vec<u64>, ys: &Vec<u64>, lo: usize, hi: usize, bits: u32) -> (r: ModelForm)
    requires
        lo < hi <= xs@.len(),
        xs@.len() == ys@.len(),
        bits >= 1,
    ensures
        r@ == radix_fit(xs@, ys@, lo as int, hi as int, bits),
        r@.wf(),
{
    let digits: u32 = bit_length_exec(xs[hi - 1]);
    let shift: u32 = if digits > bits {
        digits - bits
    } else {
        0
    };
    let y0: u64 = ys[lo];
    let span: u64 = if ys[hi - 1] >= y0 {
        let d: u64 = ys[hi - 1] - y0;
        if d == u64::MAX {
            u64::MAX
        } else {
            d + 1
        }
    } else {
        1
    };
    ModelForm::Radix { shift, top: xs[hi - 1] >> shift, y0, span }
}

/// The leading bits that a radix kind takes, for a run of `n` points.
pub open spec fn radix_bits(kind: ModelKind, n: nat) -> u32 {
    match kind {
        ModelKind::Radix18 => 18,
        ModelKind::Radix22 => 22,
        _ => if bit_length(n) == 0 {
            1
        } else {
            bit_length(n) as u32
        },
    }
}

/// The share of a run that the robust line leaves out at each end: one
/// point in a hundred.
pub open spec fn robust_trim(n: int) -> int {
    n / 100
}

/// The model of the given kind for the run.
///
/// An empty run gives the constant zero, a single point the constant at its
/// position. The standard line is the exact least-squares line; where its
/// sums cannot be had it gives way to the extended line, which measures the
/// keys more coarsely. The extended line asked for by name is the same: it
/// is exact wherever the exact line can be had.
pub open spec fn fit(kind: ModelKind, xs: Seq<u64>, ys: Seq<u64>, lo: int, hi: int) -> FormView {
    if hi <= lo {
        FormView::Constant { value: 0 }
    } else if hi == lo + 1 {
        FormView::Constant { value: ys[lo] }
    } else {
        match kind {
            ModelKind::Linear | ModelKind::LinearBig => big_line_fit(xs, ys, lo, hi, 0, 0),
            ModelKind::RobustLinear => big_line_fit(xs, ys, lo, hi, robust_trim(hi - lo), 0),
            ModelKind::LinearSpline => segments_fit(xs, ys, lo, hi, 1),
            ModelKind::Pwl => segments_fit(xs, ys, lo, hi, 28),
            ModelKind::Pwl30 => segments_fit(xs, ys, lo, hi, 30),
            ModelKind::Cubic => cubic_fit(xs, ys, lo, hi),
            ModelKind::Normal => distribution_fit(xs, ys, lo, hi, false),
            ModelKind::Lognormal => distribution_fit(xs, ys, lo, hi, true),
            ModelKind::Loglinear => loglinear_fit(xs, ys, lo, hi),
            _ => radix_fit(xs, ys, lo, hi, radix_bits(kind, (hi - lo) as nat)),
        }
    }
}

/// Fits the model of the given kind to the run.
pub fn fit_exec(kind: ModelKind, xs: &Vec<u64>, ys: &Vec<u64>, lo: usize, hi: usize) -> (r:
    ModelForm)
    requires
        lo <= hi <= xs@.len(),
        xs@.len() == ys@.len(),
    ensures
        r@ == fit(kind, xs@, ys@, lo as int, hi as int),
        r@.wf(),
{
    if hi <= lo {
        return ModelForm::Constant { value: 0 };
    }
    if hi == lo + 1 {
        return ModelForm::Constant { value: ys[lo] };
    }
    let n: usize = hi - lo;
    match kind {
        ModelKind::Linear | ModelKind::LinearBig => big_line_fit_exec(xs, ys, lo, hi, 0, 0),
        ModelKind::RobustLinear => big_line_fit_exec(xs, ys, lo, hi, n / 100, 0),
        ModelKind::LinearSpline => segments_fit_exec(xs, ys, lo, hi, 1),
        ModelKind::Pwl => segments_fit_exec(xs, ys, lo, hi, 28),
        ModelKind::Pwl30 => segments_fit_exec(xs, ys, lo, hi, 30),
        ModelKind::Cubic => cubic_fit_exec(xs, ys, lo, hi),
        ModelKind::Normal => distribution_fit_exec(xs, ys, lo, hi, false),
        ModelKind::Lognormal => distribution_fit_exec(xs, ys, lo, hi, true),
        ModelKind::Loglinear => loglinear_fit_exec(xs, ys, lo, hi),
        ModelKind::Radix18 => radix_fit_exec(xs, ys, lo, hi, 18),
        ModelKind::Radix22 => radix_fit_exec(xs, ys, lo, hi, 22),
        ModelKind::Radix => {
            let digits: u32 = bit_length_exec(n as u64);
            radix_fit_exec(xs, ys, lo, hi, if digits == 0 {
                1
            } else {
                digits
            })
        },
    }
}

} // verus!
