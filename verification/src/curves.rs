//! Curved models, tabulated: the cubic, the normal and the log-normal
//! distribution, and the line over the logarithm of the key.
//!
//! Each curve is worked out in whole numbers at a fixed set of keys and held
//! as straight segments through those anchors. Anchors that do not ascend,
//! in key or in position, are given up for the least-squares line.

use vstd::prelude::*;
use crate::cache_fix::{is_sorted, sorted};
use crate::fit::{big_line_fit, big_line_fit_exec, bit_length, bit_length_exec, sum_over};
use crate::models::{clamp_to_u64, clamp_u64, FormView, ModelForm};

verus! {

/// One whole step of the binary logarithm, in the units of `log_fixed`.
pub const LOG_ONE: u64 = 65536;

/// The anchors of a distribution: one for each half deviation from four
/// below the mean to four above it.
pub const DISTRIBUTION_ANCHORS: usize = 17;

/// The anchors of a logarithmic line: one at each power of two, less one.
pub const LOG_ANCHORS: usize = 65;

/// The anchors of a cubic: the run's key range in thirty-two equal parts.
pub const CUBIC_ANCHORS: usize = 33;

/// The largest input that the moments of a distribution are taken over.
pub const INPUT_MAX: u64 = 0xffff_ffff;

/// The segments through the anchors where keys and positions both ascend;
/// else the least-squares line of the run.
pub open spec fn tabulated(
    ax: Seq<u64>,
    ay: Seq<u64>,
    xs: Seq<u64>,
    ys: Seq<u64>,
    lo: int,
    hi: int,
) -> FormView {
    if ax.len() == ay.len() && ax.len() >= 1 && sorted(ax) && sorted(ay) {
        FormView::Segments { xs: ax, ys: ay }
    } else {
        big_line_fit(xs, ys, lo, hi, 0, 0)
    }
}

fn tabulated_exec(
    ax: Vec<u64>,
    ay: Vec<u64>,
    xs: &Vec<u64>,
    ys: &Vec<u64>,
    lo: usize,
    hi: usize,
) -> (r: ModelForm)
    requires
        lo < hi <= xs@.len(),
        xs@.len() == ys@.len(),
    ensures
        r@ == tabulated(ax@, ay@, xs@, ys@, lo as int, hi as int),
        r@.wf(),
{
    if ax.len() == ay.len() && ax.len() >= 1 && is_sorted(&ax) && is_sorted(&ay) {
        ModelForm::Segments { xs: ax, ys: ay }
    } else {
        big_line_fit_exec(xs, ys, lo, hi, 0, 0)
    }
}

/// How far `a` lies above `b`; zero where it does not.
pub open spec fn above(a: u64, b: u64) -> u64 {
    if a >= b {
        (a - b) as u64
    } else {
        0
    }
}

fn above_exec(a: u64, b: u64) -> (r: u64)
    ensures
        r == above(a, b),
{
    if a >= b {
        a - b
    } else {
        0
    }
}

/// The binary logarithm of `x` in units of one part in `LOG_ONE`: the
/// number of whole doublings, and between two powers of two the share of
/// the way from one to the next. Zero for zero.
pub open spec fn log_fixed(x: u64) -> u64 {
    if x == 0 {
        0
    } else {
        let e: u32 = (bit_length(x as nat) - 1) as u32;
        let base: u128 = 1u128 << e;
        let over: u128 = if x >= base {
            (x - base) as u128
        } else {
            0
        };
        let part = (over * 65536) / (base as int);
        let f = if part > 65535 {
            65535
        } else {
            part
        };
        (e * LOG_ONE + f) as u64
    }
}

/// Takes the binary logarithm of `x`.
pub fn log_fixed_exec(x: u64) -> (r: u64)
    ensures
        r == log_fixed(x),
        r < 0x40_0000,
{
    if x == 0 {
        return 0;
    }
    let digits: u32 = bit_length_exec(x);
    assert(digits >= 1) by {
        reveal_with_fuel(bit_length, 2);
    }
    let e: u32 = digits - 1;
    let base: u128 = 1u128 << e;
    assert(base >= 1) by (bit_vector)
        requires
            e < 64,
            base == 1u128 << e,
    ;
    let over: u128 = if x as u128 >= base {
        x as u128 - base
    } else {
        0
    };
    let part: u128 = (over * 65536) / base;
    let f: u128 = if part > 65535 {
        65535
    } else {
        part
    };
    (e as u64) * LOG_ONE + f as u64
}

/// The number whose logarithm in units of one part in `LOG_ONE` is `l`,
/// by the same straight lines between powers of two; no more than sixty-
/// three doublings are taken.
pub open spec fn exp_fixed(l: u64) -> u64 {
    let e: u32 = if l / 65536 > 63 {
        63u32
    } else {
        (l / 65536) as u32
    };
    let base: u128 = 1u128 << e;
    clamp_u64(base + ((l % 65536) * base) / 65536)
}

/// Gives the number whose binary logarithm is `l`.
pub fn exp_fixed_exec(l: u64) -> (r: u64)
    ensures
        r == exp_fixed(l),
{
    let e: u32 = if l / 65536 > 63 {
        63
    } else {
        (l / 65536) as u32
    };
    let base: u128 = 1u128 << e;
    assert(base <= 0x8000_0000_0000_0000) by (bit_vector)
        requires
            e < 64,
            base == 1u128 << e,
    ;
    let part: u128 = (l % 65536) as u128;
    assert(part * base <= 65536 * 0x8000_0000_0000_0000) by (nonlinear_arith)
        requires
            part <= 65536,
            base <= 0x8000_0000_0000_0000,
    ;
    clamp_to_u64(base + (part * base) / 65536)
}

/// `r` is the whole part of the square root of `v`.
pub open spec fn is_root(r: nat, v: nat) -> bool {
    r * r <= v < (r + 1) * (r + 1)
}

/// The whole part of the square root of `v`.
pub open spec fn root(v: nat) -> nat {
    choose|r: nat| is_root(r, v)
}

/// A number has one whole square root.
pub proof fn lemma_root_unique(a: nat, b: nat, v: nat)
    requires
        is_root(a, v),
        is_root(b, v),
    ensures
        a == b,
{
    if a < b {
        assert((a + 1) * (a + 1) <= b * b) by (nonlinear_arith)
            requires
                a + 1 <= b,
        ;
    } else if b < a {
        assert((b + 1) * (b + 1) <= a * a) by (nonlinear_arith)
            requires
                b + 1 <= a,
        ;
    }
}

/// Takes the whole part of the square root of `v`.
pub fn root_exec(v: u64) -> (r: u64)
    ensures
        r == root(v as nat),
        is_root(r as nat, v as nat),
        r <= 0xffff_ffff,
{
    let mut lo: u64 = 0;
    let mut hi: u64 = 0x1_0000_0000;
    while hi - lo > 1
        invariant
            lo < hi <= 0x1_0000_0000,
            lo * lo <= v,
            v < hi * hi,
        decreases hi - lo,
    {
        let mid: u64 = lo + (hi - lo) / 2;
        assert(mid * mid <= 0x1_0000_0000 * 0x1_0000_0000) by (nonlinear_arith)
            requires
                mid <= 0x1_0000_0000,
        ;
        if (mid as u128) * (mid as u128) <= v as u128 {
            lo = mid;
        } else {
            hi = mid;
        }
    }
    proof {
        assert(is_root(lo as nat, v as nat));
        lemma_root_unique(lo as nat, root(v as nat), v as nat);
    }
    lo
}

/// The share of a normal distribution, in parts of `LOG_ONE`, that lies
/// more than `d` half deviations below the mean.
pub open spec fn lower_tail(d: int) -> u64 {
    if d <= 0 {
        32768
    } else if d == 1 {
        20220
    } else if d == 2 {
        10398
    } else if d == 3 {
        4378
    } else if d == 4 {
        1491
    } else if d == 5 {
        407
    } else if d == 6 {
        88
    } else if d == 7 {
        15
    } else {
        2
    }
}

/// The share of a normal distribution, in parts of `LOG_ONE`, that lies
/// below the anchor `k`: `k - 8` half deviations from the mean.
pub open spec fn share_below(k: int) -> u64 {
    if k <= 8 {
        lower_tail(8 - k)
    } else {
        (65536 - lower_tail(k - 8)) as u64
    }
}

fn lower_tail_exec(d: usize) -> (r: u64)
    ensures
        r == lower_tail(d as int),
        r <= 32768,
{
    if d == 0 {
        32768
    } else if d == 1 {
        20220
    } else if d == 2 {
        10398
    } else if d == 3 {
        4378
    } else if d == 4 {
        1491
    } else if d == 5 {
        407
    } else if d == 6 {
        88
    } else if d == 7 {
        15
    } else {
        2
    }
}

fn share_below_exec(k: usize) -> (r: u64)
    ensures
        r == share_below(k as int),
        r <= 65536,
{
    if k <= 8 {
        lower_tail_exec(8 - k)
    } else {
        65536 - lower_tail_exec(k - 8)
    }
}

/// What a distribution is measured over: the key's logarithm, or its
/// distance from `x0` in steps of `unit`; no more than `INPUT_MAX`.
pub open spec fn curve_input(x: u64, x0: u64, unit: u64, logged: bool) -> u64 {
    let v = if logged {
        log_fixed(x) as int
    } else {
        (above(x, x0) as int) / (unit as int)
    };
    if v > INPUT_MAX {
        INPUT_MAX
    } else {
        v as u64
    }
}

fn curve_input_exec(x: u64, x0: u64, unit: u64, logged: bool) -> (r: u64)
    requires
        unit > 0,
    ensures
        r == curve_input(x, x0, unit, logged),
        r <= 0xffff_ffff,
{
    let v: u64 = if logged {
        log_fixed_exec(x)
    } else {
        above_exec(x, x0) / unit
    };
    if v > INPUT_MAX {
        INPUT_MAX
    } else {
        v
    }
}

/// The key that stands for the input `v`.
pub open spec fn curve_key(v: u64, x0: u64, unit: u64, logged: bool) -> u64 {
    if logged {
        exp_fixed(v)
    } else {
        clamp_u64(x0 + v * unit)
    }
}

fn curve_key_exec(v: u64, x0: u64, unit: u64, logged: bool) -> (r: u64)
    ensures
        r == curve_key(v, x0, unit, logged),
{
    if logged {
        exp_fixed_exec(v)
    } else {
        assert(v * unit <= 0xffff_ffff_ffff_ffff * 0xffff_ffff_ffff_ffff) by (nonlinear_arith)
            requires
                v <= 0xffff_ffff_ffff_ffff,
                unit <= 0xffff_ffff_ffff_ffff,
        ;
        clamp_to_u64(x0 as u128 + (v as u128) * (unit as u128))
    }
}

/// The input at index `i`.
pub open spec fn term_in(xs: Seq<u64>, x0: u64, unit: u64, logged: bool) -> spec_fn(int) -> nat {
    |i: int| curve_input(xs[i], x0, unit, logged) as nat
}

/// The square of the input at index `i`.
pub open spec fn term_in2(xs: Seq<u64>, x0: u64, unit: u64, logged: bool) -> spec_fn(int) -> nat {
    |i: int|
        (curve_input(xs[i], x0, unit, logged) * curve_input(xs[i], x0, unit, logged)) as nat
}

/// The mean of the run's inputs.
pub open spec fn mean_input(
    xs: Seq<u64>,
    lo: int,
    hi: int,
    x0: u64,
    unit: u64,
    logged: bool,
) -> u64 {
    let m = sum_over(lo, hi, term_in(xs, x0, unit, logged)) / ((hi - lo) as nat);
    if m > 0xffff_ffff {
        0xffff_ffff
    } else {
        m as u64
    }
}

/// The standard deviation of the run's inputs, by the method of moments:
/// the root of the mean square less the square of the mean.
pub open spec fn deviation(
    xs: Seq<u64>,
    lo: int,
    hi: int,
    x0: u64,
    unit: u64,
    logged: bool,
) -> u64 {
    let m = mean_input(xs, lo, hi, x0, unit, logged);
    let q = sum_over(lo, hi, term_in2(xs, x0, unit, logged)) / ((hi - lo) as nat);
    let spread = clamp_u64(q - m * m);
    root(spread as nat) as u64
}

/// The mean and the standard deviation of the run's inputs.
fn moments_exec(xs: &Vec<u64>, lo: usize, hi: usize, x0: u64, unit: u64, logged: bool) -> (r: (
    u64,
    u64,
))
    requires
        lo < hi <= xs@.len(),
        unit > 0,
    ensures
        r.0 == mean_input(xs@, lo as int, hi as int, x0, unit, logged),
        r.1 == deviation(xs@, lo as int, hi as int, x0, unit, logged),
        r.0 <= 0xffff_ffff,
        r.1 <= 0xffff_ffff,
{
    let mut s1: u128 = 0;
    let mut s2: u128 = 0;
    let mut i: usize = lo;
    while i < hi
        invariant
            lo <= i <= hi <= xs@.len(),
            unit > 0,
            s1 == sum_over(lo as int, i as int, term_in(xs@, x0, unit, logged)),
            s2 == sum_over(lo as int, i as int, term_in2(xs@, x0, unit, logged)),
            s1 <= (i - lo) * 0xffff_ffff,
            s2 <= (i - lo) * 0xffff_fffe_0000_0001,
        decreases hi - i,
    {
        let v: u64 = curve_input_exec(xs[i], x0, unit, logged);
        assert(v * v <= 0xffff_fffe_0000_0001) by (nonlinear_arith)
            requires
                v <= 0xffff_ffff,
        ;
        assert((i - lo + 1) * 0xffff_fffe_0000_0001 <= 0x1_0000_0000_0000_0000
            * 0xffff_fffe_0000_0001) by (nonlinear_arith)
            requires
                i - lo + 1 <= 0x1_0000_0000_0000_0000,
        ;
        s1 = s1 + v as u128;
        s2 = s2 + (v as u128) * (v as u128);
        i += 1;
    }
    let n: u128 = (hi - lo) as u128;
    let m_wide: u128 = s1 / n;
    let m: u64 = if m_wide > 0xffff_ffff {
        0xffff_ffff
    } else {
        m_wide as u64
    };
    let q: u128 = s2 / n;
    assert(m * m <= 0xffff_fffe_0000_0001) by (nonlinear_arith)
        requires
            m <= 0xffff_ffff,
    ;
    let mm: u128 = (m as u128) * (m as u128);
    let spread: u64 = if q >= mm {
        clamp_to_u64(q - mm)
    } else {
        0
    };
    (m, root_exec(spread))
}

/// The input at the anchor `k`: the mean and `k - 8` half deviations; not
/// below zero.
pub open spec fn spread_input(k: int, m: u64, dev: u64) -> u64 {
    if k >= 8 {
        clamp_u64(m + ((k - 8) * dev) / 2)
    } else {
        clamp_u64(m - ((8 - k) * dev) / 2)
    }
}

fn spread_input_exec(k: usize, m: u64, dev: u64) -> (r: u64)
    requires
        k < 17,
        m <= 0xffff_ffff,
        dev <= 0xffff_ffff,
    ensures
        r == spread_input(k as int, m, dev),
{
    if k >= 8 {
        let steps: u64 = (k - 8) as u64;
        assert(steps * dev <= 8 * 0xffff_ffff) by (nonlinear_arith)
            requires
                steps <= 8,
                dev <= 0xffff_ffff,
        ;
        m + (steps * dev) / 2
    } else {
        let steps: u64 = (8 - k) as u64;
        assert(steps * dev <= 8 * 0xffff_ffff) by (nonlinear_arith)
            requires
                steps <= 8,
                dev <= 0xffff_ffff,
        ;
        let down: u64 = (steps * dev) / 2;
        if m >= down {
            m - down
        } else {
            0
        }
    }
}

/// The position at the anchor `k`: the distribution's share below it, of
/// the `h` positions from `y0` on.
pub open spec fn share_position(k: int, y0: u64, h: u64) -> u64 {
    clamp_u64(y0 + (h * share_below(k)) / 65536)
}

fn share_position_exec(k: usize, y0: u64, h: u64) -> (r: u64)
    requires
        k < 17,
    ensures
        r == share_position(k as int, y0, h),
{
    let s: u64 = share_below_exec(k);
    assert(h * s <= 0xffff_ffff_ffff_ffff * 65536) by (nonlinear_arith)
        requires
            h <= 0xffff_ffff_ffff_ffff,
            s <= 65536,
    ;
    clamp_to_u64(y0 as u128 + ((h as u128) * (s as u128)) / 65536)
}

/// The step in which a distribution measures the keys of a run from `x0`
/// to `x1`: the least that keeps every distance within `INPUT_MAX`.
pub open spec fn input_unit(x0: u64, x1: u64) -> u64 {
    (above(x1, x0) / 0x1_0000_0000 + 1) as u64
}

/// The normal distribution fitted to the run's keys (to their logarithms
/// where `logged`) by the method of moments, scaled to the run's positions
/// and tabulated at every half deviation. Keys without a deviation have the
/// least-squares line.
#[verifier::opaque]
pub open spec fn distribution_fit(
    xs: Seq<u64>,
    ys: Seq<u64>,
    lo: int,
    hi: int,
    logged: bool,
) -> FormView {
    let x0 = xs[lo];
    let unit = input_unit(x0, xs[hi - 1]);
    let y0 = ys[lo];
    let h = above(ys[hi - 1], y0);
    let m = mean_input(xs, lo, hi, x0, unit, logged);
    let dev = deviation(xs, lo, hi, x0, unit, logged);
    if dev == 0 {
        big_line_fit(xs, ys, lo, hi, 0, 0)
    } else {
        tabulated(
            Seq::new(17, |k: int| curve_key(spread_input(k, m, dev), x0, unit, logged)),
            Seq::new(17, |k: int| share_position(k, y0, h)),
            xs,
            ys,
            lo,
            hi,
        )
    }
}

/// Fits the normal distribution to the run's keys, or to their
/// logarithms, and tabulates it.
pub fn distribution_fit_exec(xs: &Vec<u64>, ys: &Vec<u64>, lo: usize, hi: usize, logged: bool) -> (r:
    ModelForm)
    requires
        lo < hi <= xs@.len(),
        xs@.len() == ys@.len(),
    ensures
        r@ == distribution_fit(xs@, ys@, lo as int, hi as int, logged),
        r@.wf(),
{
    reveal(distribution_fit);
    let x0: u64 = xs[lo];
    let unit: u64 = above_exec(xs[hi - 1], x0) / 0x1_0000_0000 + 1;
    let y0: u64 = ys[lo];
    let h: u64 = above_exec(ys[hi - 1], y0);
    let (m, dev) = moments_exec(xs, lo, hi, x0, unit, logged);
    if dev == 0 {
        return big_line_fit_exec(xs, ys, lo, hi, 0, 0);
    }
    let mut ax: Vec<u64> = Vec::new();
    let mut ay: Vec<u64> = Vec::new();
    let mut k: usize = 0;
    while k < DISTRIBUTION_ANCHORS
        invariant
            k <= 17,
            m <= 0xffff_ffff,
            dev <= 0xffff_ffff,
            ax@.len() == k,
            ay@.len() == k,
            forall|j: int|
                0 <= j < k ==> ax@[j] == curve_key(spread_input(j, m, dev), x0, unit, logged),
            forall|j: int| 0 <= j < k ==> ay@[j] == share_position(j, y0, h),
        decreases 17 - k,
    {
        let v: u64 = spread_input_exec(k, m, dev);
        ax.push(curve_key_exec(v, x0, unit, logged));
        ay.push(share_position_exec(k, y0, h));
        k += 1;
    }
    proof {
        assert(ax@ =~= Seq::new(
            17,
            |k: int| curve_key(spread_input(k, m, dev), x0, unit, logged),
        ));
        assert(ay@ =~= Seq::new(17, |k: int| share_position(k, y0, h)));
    }
    tabulated_exec(ax, ay, xs, ys, lo, hi)
}

/// The number after `x`; the largest number stays.
pub open spec fn next_up(x: u64) -> u64 {
    if x == u64::MAX {
        x
    } else {
        (x + 1) as u64
    }
}

fn next_up_exec(x: u64) -> (r: u64)
    ensures
        r == next_up(x),
{
    if x == u64::MAX {
        x
    } else {
        x + 1
    }
}

/// The logarithms of the numbers after the run's keys.
pub open spec fn logs_of(xs: Seq<u64>, lo: int, hi: int) -> Seq<u64> {
    Seq::new((hi - lo) as nat, |i: int| log_fixed(next_up(xs[lo + i])))
}

/// The `j`-th power of two, less one; the largest key from the sixty-fourth
/// on.
pub open spec fn power_key(j: nat) -> u64
    decreases j,
{
    if j == 0 {
        0
    } else {
        clamp_u64(2 * power_key((j - 1) as nat) + 1)
    }
}

/// The least-squares line of the run's positions over the logarithms of its
/// keys, tabulated at the powers of two, between which the logarithm is
/// taken to run straight.
#[verifier::opaque]
pub open spec fn loglinear_fit(xs: Seq<u64>, ys: Seq<u64>, lo: int, hi: int) -> FormView {
    let line = big_line_fit(logs_of(xs, lo, hi), ys.subrange(lo, hi), 0, hi - lo, 0, 0);
    tabulated(
        Seq::new(65, |j: int| power_key(j as nat)),
        Seq::new(65, |j: int| line.predict(log_fixed(next_up(power_key(j as nat))))),
        xs,
        ys,
        lo,
        hi,
    )
}

/// Fits the line over the logarithms of the run's keys and tabulates it.
pub fn loglinear_fit_exec(xs: &Vec<u64>, ys: &Vec<u64>, lo: usize, hi: usize) -> (r: ModelForm)
    requires
        lo < hi <= xs@.len(),
        xs@.len() == ys@.len(),
    ensures
        r@ == loglinear_fit(xs@, ys@, lo as int, hi as int),
        r@.wf(),
{
    reveal(loglinear_fit);
    let mut lx: Vec<u64> = Vec::new();
    let mut ly: Vec<u64> = Vec::new();
    let mut i: usize = lo;
    while i < hi
        invariant
            lo <= i <= hi <= xs@.len(),
            xs@.len() == ys@.len(),
            lx@.len() == i - lo,
            ly@.len() == i - lo,
            forall|j: int| 0 <= j < i - lo ==> lx@[j] == log_fixed(next_up(xs@[lo + j])),
            forall|j: int| 0 <= j < i - lo ==> ly@[j] == ys@[lo + j],
        decreases hi - i,
    {
        lx.push(log_fixed_exec(next_up_exec(xs[i])));
        ly.push(ys[i]);
        i += 1;
    }
    proof {
        assert(lx@ =~= logs_of(xs@, lo as int, hi as int));
        assert(ly@ =~= ys@.subrange(lo as int, hi as int));
    }
    let line = big_line_fit_exec(&lx, &ly, 0, hi - lo, 0, 0);
    let ghost form = line@;
    let mut ax: Vec<u64> = Vec::new();
    let mut ay: Vec<u64> = Vec::new();
    let mut key: u64 = 0;
    let mut j: usize = 0;
    while j < LOG_ANCHORS
        invariant
            j <= 65,
            form == line@,
            form.wf(),
            key == power_key(j as nat),
            ax@.len() == j,
            ay@.len() == j,
            forall|a: int| 0 <= a < j ==> ax@[a] == power_key(a as nat),
            forall|a: int|
                0 <= a < j ==> ay@[a] == form.predict(log_fixed(next_up(power_key(a as nat)))),
        decreases 65 - j,
    {
        ax.push(key);
        ay.push(line.predict(log_fixed_exec(next_up_exec(key))));
        key = clamp_to_u64(2 * (key as u128) + 1);
        j += 1;
    }
    proof {
        assert(ax@ =~= Seq::new(65, |j: int| power_key(j as nat)));
        assert(ay@ =~= Seq::new(
            65,
            |j: int| form.predict(log_fixed(next_up(power_key(j as nat)))),
        ));
    }
    tabulated_exec(ax, ay, xs, ys, lo, hi)
}

/// The key of the cubic's anchor `m`: the run's key range from `x0` in
/// thirty-two equal parts.
pub open spec fn cubic_key(m: int, x0: u64, range: u64) -> u64 {
    clamp_u64(x0 + (m * range) / 32)
}

fn cubic_key_exec(m: usize, x0: u64, range: u64) -> (r: u64)
    requires
        m <= 32,
    ensures
        r == cubic_key(m as int, x0, range),
{
    assert(m * range <= 32 * 0xffff_ffff_ffff_ffff) by (nonlinear_arith)
        requires
            m <= 32,
            range <= 0xffff_ffff_ffff_ffff,
    ;
    clamp_to_u64(x0 as u128 + ((m as u128) * (range as u128)) / 32)
}

/// The first index from `from` on, below `hi`, whose key lies above `key`;
/// `hi` if there is none.
pub open spec fn first_over(xs: Seq<u64>, key: u64, from: int, hi: int) -> int
    decreases hi - from,
{
    if from >= hi || xs[from] > key {
        from
    } else {
        first_over(xs, key, from + 1, hi)
    }
}

/// Where the sampling of a run stands after the anchor `m`: at the first
/// index whose key lies above the anchor's, counted on from where it stood
/// after the anchor before; before the first anchor, at the run's start.
pub open spec fn sample_index(xs: Seq<u64>, lo: int, hi: int, m: int) -> int
    decreases m + 1,
{
    if m < 0 {
        lo
    } else {
        first_over(
            xs,
            cubic_key(m, xs[lo], above(xs[hi - 1], xs[lo])),
            sample_index(xs, lo, hi, m - 1),
            hi,
        )
    }
}

/// The run's position at the anchor `m`: that of the last pair that the
/// sampling has passed.
pub open spec fn sample(xs: Seq<u64>, ys: Seq<u64>, lo: int, hi: int, m: int) -> u64 {
    let c = sample_index(xs, lo, hi, m);
    if c > lo {
        ys[c - 1]
    } else {
        ys[lo]
    }
}

/// What the least-squares cubic over the anchors is counted in: the least
/// common multiple of the squared lengths of the four polynomials of
/// `gram`.
pub const CUBIC_UNITS: u128 = 105180768;

/// The `k`-th of the four polynomials, of degree `k`, that stand at right
/// angles to each other over the thirty-three anchors, at the anchor `t`.
pub open spec fn gram(k: int, t: int) -> int {
    let x = t - 16;
    if k <= 0 {
        1
    } else if k == 1 {
        x
    } else if k == 2 {
        3 * (x * x) - 272
    } else {
        (x * x) * x - 163 * x
    }
}

/// What the sample at the anchor `j` counts for in the least-squares cubic
/// at the anchor `i`, in parts of `CUBIC_UNITS`: the sum over the four
/// polynomials of their product at `i` and `j`, each divided by its squared
/// length (33, 2992, 1947792 and 15025824).
pub open spec fn cubic_weight(i: int, j: int) -> int {
    3187296 + (gram(1, i) * gram(1, j)) * 35154 + (gram(2, i) * gram(2, j)) * 54 + (gram(3, i)
        * gram(3, j)) * 7
}

/// The samples before `upto`, each times its weight at the anchor `i`.
pub open spec fn weighted_sum(g: Seq<u64>, i: int, upto: int) -> int
    decreases upto,
{
    if upto <= 0 {
        0
    } else {
        weighted_sum(g, i, upto - 1) + cubic_weight(i, upto - 1) * g[upto - 1]
    }
}

/// The least-squares cubic through the samples, at the anchor `i`; not
/// below zero.
pub open spec fn cubic_value(g: Seq<u64>, i: int) -> u64 {
    clamp_u64(weighted_sum(g, i, 33) / 105180768)
}

fn cubic_weight_exec(i: usize, j: usize) -> (w: i64)
    requires
        i <= 32,
        j <= 32,
    ensures
        w == cubic_weight(i as int, j as int),
        -400_000_000 <= w <= 400_000_000,
{
    let x: i64 = i as i64 - 16;
    let y: i64 = j as i64 - 16;
    assert(-256 <= x * y <= 256 && 0 <= x * x <= 256 && 0 <= y * y <= 256) by (nonlinear_arith)
        requires
            -16 <= x <= 16,
            -16 <= y <= 16,
    ;
    let x2: i64 = x * x;
    let y2: i64 = y * y;
    assert(-4096 <= x2 * x <= 4096 && -4096 <= y2 * y <= 4096) by (nonlinear_arith)
        requires
            -16 <= x <= 16,
            -16 <= y <= 16,
            0 <= x2 <= 256,
            0 <= y2 <= 256,
    ;
    let a2: i64 = 3 * x2 - 272;
    let b2: i64 = 3 * y2 - 272;
    let a3: i64 = x2 * x - 163 * x;
    let b3: i64 = y2 * y - 163 * y;
    assert(-250_000 <= a2 * b2 <= 250_000 && -45_000_000 <= a3 * b3 <= 45_000_000)
        by (nonlinear_arith)
        requires
            -272 <= a2 <= 496,
            -272 <= b2 <= 496,
            -6704 <= a3 <= 6704,
            -6704 <= b3 <= 6704,
    ;
    3187296 + (x * y) * 35154 + (a2 * b2) * 54 + (a3 * b3) * 7
}

fn cubic_value_exec(g: &Vec<u64>, i: usize) -> (r: u64)
    requires
        g@.len() == 33,
        i <= 32,
    ensures
        r == cubic_value(g@, i as int),
{
    let mut plus: u128 = 0;
    let mut minus: u128 = 0;
    let mut j: usize = 0;
    while j < CUBIC_ANCHORS
        invariant
            g@.len() == 33,
            i <= 32,
            j <= 33,
            plus - minus == weighted_sum(g@, i as int, j as int),
            plus <= j * 0x1_0000_0000_0000_0000_0000_0000,
            minus <= j * 0x1_0000_0000_0000_0000_0000_0000,
        decreases 33 - j,
    {
        let w: i64 = cubic_weight_exec(i, j);
        let v: u128 = g[j] as u128;
        if w >= 0 {
            let size: u128 = w as u128;
            assert(size * v <= 400_000_000 * 0xffff_ffff_ffff_ffff) by (nonlinear_arith)
                requires
                    size <= 400_000_000,
                    v <= 0xffff_ffff_ffff_ffff,
            ;
            assert(size * v == cubic_weight(i as int, j as int) * g@[j as int]);
            plus = plus + size * v;
        } else {
            let size: u128 = (-w) as u128;
            assert(size * v <= 400_000_000 * 0xffff_ffff_ffff_ffff) by (nonlinear_arith)
                requires
                    size <= 400_000_000,
                    v <= 0xffff_ffff_ffff_ffff,
            ;
            assert(size * v == -(cubic_weight(i as int, j as int) * g@[j as int]))
                by (nonlinear_arith)
                requires
                    size == -cubic_weight(i as int, j as int),
                    v == g@[j as int],
            ;
            minus = minus + size * v;
        }
        j += 1;
    }
    if plus >= minus {
        clamp_to_u64((plus - minus) / CUBIC_UNITS)
    } else {
        proof {
            let s = weighted_sum(g@, i as int, 33);
            assert(s / 105180768 < 0) by (nonlinear_arith)
                requires
                    s < 0,
            ;
        }
        0
    }
}

/// The least-squares cubic of position over key, taken over the run's key
/// range at evenly spaced anchors, at each of which the run is sampled, and
/// tabulated at the same anchors. A run of fewer than four pairs, or of one
/// key only, has the least-squares line.
#[verifier::opaque]
pub open spec fn cubic_fit(xs: Seq<u64>, ys: Seq<u64>, lo: int, hi: int) -> FormView {
    let x0 = xs[lo];
    let range = above(xs[hi - 1], x0);
    let g = Seq::new(33, |m: int| sample(xs, ys, lo, hi, m));
    if hi - lo < 4 || range == 0 {
        big_line_fit(xs, ys, lo, hi, 0, 0)
    } else {
        tabulated(
            Seq::new(33, |m: int| cubic_key(m, x0, range)),
            Seq::new(33, |i: int| cubic_value(g, i)),
            xs,
            ys,
            lo,
            hi,
        )
    }
}

/// Fits the least-squares cubic to the run and tabulates it.
pub fn cubic_fit_exec(xs: &Vec<u64>, ys: &Vec<u64>, lo: usize, hi: usize) -> (r: ModelForm)
    requires
        lo < hi <= xs@.len(),
        xs@.len() == ys@.len(),
    ensures
        r@ == cubic_fit(xs@, ys@, lo as int, hi as int),
        r@.wf(),
{
    reveal(cubic_fit);
    let x0: u64 = xs[lo];
    let range: u64 = above_exec(xs[hi - 1], x0);
    if hi - lo < 4 || range == 0 {
        return big_line_fit_exec(xs, ys, lo, hi, 0, 0);
    }
    let mut ax: Vec<u64> = Vec::new();
    let mut g: Vec<u64> = Vec::new();
    let mut c: usize = lo;
    let mut m: usize = 0;
    while m < CUBIC_ANCHORS
        invariant
            lo < hi <= xs@.len(),
            xs@.len() == ys@.len(),
            x0 == xs@[lo as int],
            range == above(xs@[hi - 1], x0),
            m <= 33,
            lo <= c <= hi,
            c == sample_index(xs@, lo as int, hi as int, m - 1),
            ax@.len() == m,
            g@.len() == m,
            forall|a: int| 0 <= a < m ==> ax@[a] == cubic_key(a, x0, range),
            forall|a: int| 0 <= a < m ==> g@[a] == sample(xs@, ys@, lo as int, hi as int, a),
        decreases 33 - m,
    {
        let key: u64 = cubic_key_exec(m, x0, range);
        let ghost start = c;
        while c < hi && xs[c] <= key
            invariant
                start <= c <= hi <= xs@.len(),
                first_over(xs@, key, start as int, hi as int) == first_over(
                    xs@,
                    key,
                    c as int,
                    hi as int,
                ),
            decreases hi - c,
        {
            c += 1;
        }
        assert(c == sample_index(xs@, lo as int, hi as int, m as int));
        ax.push(key);
        g.push(if c > lo {
            ys[c - 1]
        } else {
            ys[lo]
        });
        m += 1;
    }
    let mut ay: Vec<u64> = Vec::new();
    let mut i: usize = 0;
    while i < CUBIC_ANCHORS
        invariant
            i <= 33,
            g@.len() == 33,
            ay@.len() == i,
            forall|a: int| 0 <= a < i ==> ay@[a] == cubic_value(g@, a),
        decreases 33 - i,
    {
        ay.push(cubic_value_exec(&g, i));
        i += 1;
    }
    proof {
        assert(g@ =~= Seq::new(33, |m: int| sample(xs@, ys@, lo as int, hi as int, m)));
        assert(ax@ =~= Seq::new(33, |m: int| cubic_key(m, x0, range)));
        assert(ay@ =~= Seq::new(33, |i: int| cubic_value(g@, i)));
    }
    tabulated_exec(ax, ay, xs, ys, lo, hi)
}

} // verus!
