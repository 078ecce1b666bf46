//! The regression primitives and what is known of each by name.
use vstd::prelude::*;
use crate::text::str_equal;

verus! {

/// Where in the stack of layers a kind of model may stand.
#[derive(Clone, Copy, Debug, PartialEq, Eq, Structural)]
pub enum ModelRestriction {
    Unrestricted,
    RootOnly,
    LeafOnly,
}

/// The closed set of regression primitives.
#[derive(Clone, Copy, Debug, PartialEq, Eq, Structural)]
pub enum ModelKind {
    /// The least-squares line.
    Linear,
    /// The least-squares line in its extended form, which measures the keys
    /// more coarsely where the exact sums cannot be had; the standard line
    /// gives way to it there, so the two are one.
    LinearBig,
    /// The least-squares line through all but the first and the last
    /// hundredth of the pairs.
    RobustLinear,
    /// The line through the first pair and the last.
    LinearSpline,
    /// The least-squares cubic over the key range.
    Cubic,
    /// Straight segments over 28 parts of equal population.
    Pwl,
    /// Straight segments over 30 parts of equal population.
    Pwl30,
    /// The normal distribution with the mean and the deviation of the keys.
    Normal,
    /// The normal distribution with the mean and the deviation of the
    /// logarithms of the keys.
    Lognormal,
    /// The least-squares line over the logarithms of the keys.
    Loglinear,
    /// The leading binary digits of the key, as many as the number of pairs
    /// has.
    Radix,
    /// The leading eighteen binary digits of the key.
    Radix18,
    /// The leading twenty-two binary digits of the key.
    Radix22,
}

impl ModelKind {
    /// The name by which a layer list calls this kind.
    pub open spec fn name_spec(self) -> Seq<char> {
        match self {
            ModelKind::Linear => "linear"@,
            ModelKind::LinearBig => "linear_big"@,
            ModelKind::RobustLinear => "robust_linear"@,
            ModelKind::LinearSpline => "linear_spline"@,
            ModelKind::Cubic => "cubic"@,
            ModelKind::Pwl => "pwl"@,
            ModelKind::Pwl30 => "pwl30"@,
            ModelKind::Normal => "normal"@,
            ModelKind::Lognormal => "lognormal"@,
            ModelKind::Loglinear => "loglinear"@,
            ModelKind::Radix => "radix"@,
            ModelKind::Radix18 => "radix18"@,
            ModelKind::Radix22 => "radix22"@,
        }
    }

    /// The kind that `name` calls, if it calls one.
    pub open spec fn named(name: Seq<char>) -> Option<ModelKind> {
        if name == "linear"@ {
            Some(ModelKind::Linear)
        } else if name == "linear_big"@ {
            Some(ModelKind::LinearBig)
        } else if name == "robust_linear"@ {
            Some(ModelKind::RobustLinear)
        } else if name == "linear_spline"@ {
            Some(ModelKind::LinearSpline)
        } else if name == "cubic"@ {
            Some(ModelKind::Cubic)
        } else if name == "pwl"@ {
            Some(ModelKind::Pwl)
        } else if name == "pwl30"@ {
            Some(ModelKind::Pwl30)
        } else if name == "normal"@ {
            Some(ModelKind::Normal)
        } else if name == "lognormal"@ {
            Some(ModelKind::Lognormal)
        } else if name == "loglinear"@ {
            Some(ModelKind::Loglinear)
        } else if name == "radix"@ {
            Some(ModelKind::Radix)
        } else if name == "radix18"@ {
            Some(ModelKind::Radix18)
        } else if name == "radix22"@ {
            Some(ModelKind::Radix22)
        } else {
            None
        }
    }

    pub open spec fn restriction_spec(self) -> ModelRestriction {
        match self {
            ModelKind::Radix | ModelKind::Radix18 | ModelKind::Radix22 => ModelRestriction::RootOnly,
            ModelKind::LinearSpline => ModelRestriction::LeafOnly,
            _ => ModelRestriction::Unrestricted,
        }
    }

    pub fn name(self) -> (r: &'static str)
        ensures
            r@ == self.name_spec(),
    {
        match self {
            ModelKind::Linear => "linear",
            ModelKind::LinearBig => "linear_big",
            ModelKind::RobustLinear => "robust_linear",
            ModelKind::LinearSpline => "linear_spline",
            ModelKind::Cubic => "cubic",
            ModelKind::Pwl => "pwl",
            ModelKind::Pwl30 => "pwl30",
            ModelKind::Normal => "normal",
            ModelKind::Lognormal => "lognormal",
            ModelKind::Loglinear => "loglinear",
            ModelKind::Radix => "radix",
            ModelKind::Radix18 => "radix18",
            ModelKind::Radix22 => "radix22",
        }
    }

    pub fn from_name(name: &str) -> (r: Option<ModelKind>)
        ensures
            r == ModelKind::named(name@),
    {
        if str_equal(name, "linear") {
            Some(ModelKind::Linear)
        } else if str_equal(name, "linear_big") {
            Some(ModelKind::LinearBig)
        } else if str_equal(name, "robust_linear") {
            Some(ModelKind::RobustLinear)
        } else if str_equal(name, "linear_spline") {
            Some(ModelKind::LinearSpline)
        } else if str_equal(name, "cubic") {
            Some(ModelKind::Cubic)
        } else if str_equal(name, "pwl") {
            Some(ModelKind::Pwl)
        } else if str_equal(name, "pwl30") {
            Some(ModelKind::Pwl30)
        } else if str_equal(name, "normal") {
            Some(ModelKind::Normal)
        } else if str_equal(name, "lognormal") {
            Some(ModelKind::Lognormal)
        } else if str_equal(name, "loglinear") {
            Some(ModelKind::Loglinear)
        } else if str_equal(name, "radix") {
            Some(ModelKind::Radix)
        } else if str_equal(name, "radix18") {
            Some(ModelKind::Radix18)
        } else if str_equal(name, "radix22") {
            Some(ModelKind::Radix22)
        } else {
            None
        }
    }

    pub fn restriction(self) -> (r: ModelRestriction)
        ensures
            r == self.restriction_spec(),
    {
        match self {
            ModelKind::Radix | ModelKind::Radix18 | ModelKind::Radix22 => ModelRestriction::RootOnly,
            ModelKind::LinearSpline => ModelRestriction::LeafOnly,
            _ => ModelRestriction::Unrestricted,
        }
    }
}

/// Every kind is the one that its own name calls, and no name holds a comma.
pub proof fn lemma_names_round_trip(kind: ModelKind)
    ensures
        ModelKind::named(kind.name_spec()) == Some(kind),
        !kind.name_spec().contains(','),
        kind.name_spec().len() > 0,
{
    reveal_strlit("linear");
    reveal_strlit("linear_big");
    reveal_strlit("robust_linear");
    reveal_strlit("linear_spline");
    reveal_strlit("cubic");
    reveal_strlit("pwl");
    reveal_strlit("pwl30");
    reveal_strlit("normal");
    reveal_strlit("lognormal");
    reveal_strlit("loglinear");
    reveal_strlit("radix");
    reveal_strlit("radix18");
    reveal_strlit("radix22");
    let n = kind.name_spec();
    assert(!n.contains(',')) by {
        if n.contains(',') {
            let i = choose|i: int| 0 <= i < n.len() && n[i] == ',';
            assert(n[i] == ',');
        }
    }
    assert("linear"@[0] == 'l');
    assert("cubic"@[0] == 'c');
    assert("pwl"@[0] == 'p');
    assert("normal"@[0] == 'n');
    assert("radix"@[0] == 'r');
    assert("robust_linear"@[0] == 'r');
    assert("linear_spline"@[0] == 'l');
    assert("pwl30"@[0] == 'p');
    assert("lognormal"@[3] == 'n');
    assert("loglinear"@[3] == 'l');
    assert("linear_big"@[7] == 'b');
    assert("linear_spline"@[7] == 's');
    assert("radix18"@[5] == '1');
    assert("radix22"@[5] == '2');
}

/// The largest value a prediction can take.
pub open spec fn clamp_u64(v: int) -> u64 {
    if v < 0 {
        0
    } else if v > u64::MAX {
        u64::MAX
    } else {
        v as u64
    }
}

/// How far `key` lies above `x0`, in units of `2^shift`; zero below `x0`.
pub open spec fn key_offset(key: u64, x0: u64, shift: u32) -> u64 {
    if key >= x0 {
        ((key - x0) as u64) >> shift
    } else {
        0
    }
}

/// The value at `key` of the line from `(xa, ya)` to `(xb, yb)`, rounded
/// towards `ya`.
pub open spec fn interpolate(xa: u64, ya: u64, xb: u64, yb: u64, key: u64) -> u64 {
    let dx = key - xa;
    let w = xb - xa;
    if yb >= ya {
        clamp_u64(ya + (dx * (yb - ya)) / w)
    } else {
        clamp_u64(ya - (dx * (ya - yb)) / w)
    }
}

/// The first index from `from` on whose anchor lies above `key`; the number
/// of anchors if there is none.
pub open spec fn first_above(xs: Seq<u64>, key: u64, from: nat) -> nat
    decreases xs.len() - from,
{
    if from >= xs.len() || xs[from as int] > key {
        from
    } else {
        first_above(xs, key, from + 1)
    }
}

/// What a trained model holds: one of four integer forms.
#[derive(Debug)]
pub enum ModelForm {
    /// The same position for every key.
    Constant { value: u64 },
    /// A least-squares line in exact rational form: at offset `u` from `x0`
    /// it gives `y0 + (a * u + c_plus - c_minus) / d`.
    Line { x0: u64, shift: u32, y0: u64, umax: u64, a: u128, c_plus: u128, c_minus: u128, d: u128 },
    /// Straight segments through the anchors `(xs[i], ys[i])`.
    Segments { xs: Vec<u64>, ys: Vec<u64> },
    /// The key's leading bits, from `0` to `top`, spread evenly over `span`
    /// positions from `y0` on.
    Radix { shift: u32, top: u64, y0: u64, span: u64 },
}

/// A model's form as a mathematical value.
pub ghost enum FormView {
    Constant { value: u64 },
    Line { x0: u64, shift: u32, y0: u64, umax: u64, a: u128, c_plus: u128, c_minus: u128, d: u128 },
    Segments { xs: Seq<u64>, ys: Seq<u64> },
    Radix { shift: u32, top: u64, y0: u64, span: u64 },
}

impl View for ModelForm {
    type V = FormView;

    open spec fn view(&self) -> FormView {
        match self {
            ModelForm::Constant { value } => FormView::Constant { value: *value },
            ModelForm::Line { x0, shift, y0, umax, a, c_plus, c_minus, d } => FormView::Line {
                x0: *x0,
                shift: *shift,
                y0: *y0,
                umax: *umax,
                a: *a,
                c_plus: *c_plus,
                c_minus: *c_minus,
                d: *d,
            },
            ModelForm::Segments { xs, ys } => FormView::Segments { xs: xs@, ys: ys@ },
            ModelForm::Radix { shift, top, y0, span } => FormView::Radix {
                shift: *shift,
                top: *top,
                y0: *y0,
                span: *span,
            },
        }
    }
}

impl FormView {
    pub open spec fn wf(self) -> bool {
        match self {
            FormView::Constant { .. } => true,
            FormView::Line { shift, umax, a, c_plus, d, .. } => {
                &&& shift < 64
                &&& d > 0
                &&& a * umax + c_plus <= u128::MAX
            },
            FormView::Segments { xs, ys } => xs.len() == ys.len() && xs.len() >= 1,
            FormView::Radix { shift, .. } => shift < 64,
        }
    }

    /// The position that the model gives for `key`.
    pub open spec fn predict(self, key: u64) -> u64 {
        match self {
            FormView::Constant { value } => value,
            FormView::Line { x0, shift, y0, umax, a, c_plus, c_minus, d } => {
                let off = key_offset(key, x0, shift);
                let u = if off < umax {
                    off
                } else {
                    umax
                };
                let t = a * u + c_plus;
                let q = if t >= c_minus {
                    (t - c_minus) / (d as int)
                } else {
                    0
                };
                clamp_u64(y0 + q)
            },
            FormView::Segments { xs, ys } => {
                let c = first_above(xs, key, 0);
                if c == 0 {
                    ys[0]
                } else if c == xs.len() {
                    ys[xs.len() - 1]
                } else {
                    interpolate(xs[c - 1], ys[c - 1], xs[c as int], ys[c as int], key)
                }
            },
            FormView::Radix { shift, top, y0, span } => {
                let r = if (key >> shift) < top {
                    key >> shift
                } else {
                    top
                };
                clamp_u64(y0 + (r * span) / (top + 1))
            },
        }
    }

    /// The model's parameters, in order: for segments, each anchor's key
    /// and then its position.
    pub open spec fn params(self) -> Seq<u128> {
        match self {
            FormView::Constant { value } => seq![value as u128],
            FormView::Line { x0, shift, y0, umax, a, c_plus, c_minus, d } => seq![
                x0 as u128,
                shift as u128,
                y0 as u128,
                umax as u128,
                a,
                c_plus,
                c_minus,
                d,
            ],
            FormView::Segments { xs, ys } => Seq::new(
                2 * xs.len(),
                |i: int|
                    if i % 2 == 0 {
                        xs[i / 2] as u128
                    } else {
                        ys[i / 2] as u128
                    },
            ),
            FormView::Radix { shift, top, y0, span } => seq![
                shift as u128,
                top as u128,
                y0 as u128,
                span as u128,
            ],
        }
    }

    /// The bytes that the model's parameters take when written out.
    pub open spec fn size(self) -> nat {
        match self {
            FormView::Constant { .. } => 8,
            FormView::Line { .. } => 96,
            FormView::Segments { xs, .. } => 16 * xs.len(),
            FormView::Radix { .. } => 32,
        }
    }
}

pub(crate) fn clamp_to_u64(v: u128) -> (r: u64)
    ensures
        r == clamp_u64(v as int),
{
    if v > u64::MAX as u128 {
        u64::MAX
    } else {
        v as u64
    }
}

fn interpolate_exec(xa: u64, ya: u64, xb: u64, yb: u64, key: u64) -> (r: u64)
    requires
        xa <= key < xb,
    ensures
        r == interpolate(xa, ya, xb, yb, key),
{
    let dx: u128 = (key - xa) as u128;
    let w: u128 = (xb - xa) as u128;
    if yb >= ya {
        let dy: u128 = (yb - ya) as u128;
        assert(dx * dy <= 0xffff_ffff_ffff_ffff * 0xffff_ffff_ffff_ffff) by (nonlinear_arith)
            requires
                dx <= 0xffff_ffff_ffff_ffff,
                dy <= 0xffff_ffff_ffff_ffff,
        ;
        let q: u128 = (dx * dy) / w;
        assert(q <= dx * dy) by (nonlinear_arith)
            requires
                q == (dx * dy) / (w as int),
                w >= 1,
                dx * dy >= 0,
        ;
        clamp_to_u64(ya as u128 + q)
    } else {
        let dy: u128 = (ya - yb) as u128;
        assert(dx * dy <= 0xffff_ffff_ffff_ffff * 0xffff_ffff_ffff_ffff) by (nonlinear_arith)
            requires
                dx <= 0xffff_ffff_ffff_ffff,
                dy <= 0xffff_ffff_ffff_ffff,
        ;
        let q: u128 = (dx * dy) / w;
        if q >= ya as u128 {
            0
        } else {
            (ya as u128 - q) as u64
        }
    }
}

impl ModelForm {
    pub fn predict(&self, key: u64) -> (p: u64)
        requires
            self@.wf(),
        ensures
            p == self@.predict(key),
    {
        match self {
            ModelForm::Constant { value } => *value,
            ModelForm::Line { x0, shift, y0, umax, a, c_plus, c_minus, d } => {
                let off: u64 = if key >= *x0 {
                    (key - *x0) >> *shift
                } else {
                    0
                };
                let u: u64 = if off < *umax {
                    off
                } else {
                    *umax
                };
                assert(*a * u <= *a * *umax) by (nonlinear_arith)
                    requires
                        u <= *umax,
                ;
                let t: u128 = *a * (u as u128) + *c_plus;
                let q: u128 = if t >= *c_minus {
                    (t - *c_minus) / *d
                } else {
                    0
                };
                if q > u64::MAX as u128 {
                    u64::MAX
                } else {
                    clamp_to_u64(*y0 as u128 + q)
                }
            },
            ModelForm::Segments { xs, ys } => {
                let mut c: usize = 0;
                while c < xs.len() && xs[c] <= key
                    invariant
                        c <= xs@.len(),
                        c > 0 ==> xs@[c - 1] <= key,
                        first_above(xs@, key, 0) == first_above(xs@, key, c as nat),
                    decreases xs@.len() - c,
                {
                    c += 1;
                }
                if c == 0 {
                    ys[0]
                } else if c == xs.len() {
                    ys[xs.len() - 1]
                } else {
                    interpolate_exec(xs[c - 1], ys[c - 1], xs[c], ys[c], key)
                }
            },
            ModelForm::Radix { shift, top, y0, span } => {
                let r: u64 = if (key >> *shift) < *top {
                    key >> *shift
                } else {
                    *top
                };
                let rr: u128 = r as u128;
                let ss: u128 = *span as u128;
                assert(rr * ss <= 0xffff_ffff_ffff_ffff * 0xffff_ffff_ffff_ffff) by (nonlinear_arith)
                    requires
                        rr <= 0xffff_ffff_ffff_ffff,
                        ss <= 0xffff_ffff_ffff_ffff,
                ;
                let q: u128 = (rr * ss) / (*top as u128 + 1);
                assert(q <= rr * ss) by (nonlinear_arith)
                    requires
                        q == (rr * ss) / (*top + 1),
                        rr * ss >= 0,
                ;
                clamp_to_u64(*y0 as u128 + q)
            },
        }
    }

    /// Whether the form is well formed, as every form is that a fit gave.
    pub fn well_formed(&self) -> (r: bool)
        ensures
            r == self@.wf(),
    {
        match self {
            ModelForm::Constant { .. } => true,
            ModelForm::Line { shift, umax, a, c_plus, d, .. } => {
                if *shift >= 64 || *d == 0 {
                    return false;
                }
                match a.checked_mul(*umax as u128) {
                    Some(t) => t.checked_add(*c_plus).is_some(),
                    None => false,
                }
            },
            ModelForm::Segments { xs, ys } => xs.len() == ys.len() && xs.len() >= 1,
            ModelForm::Radix { shift, .. } => *shift < 64,
        }
    }

    /// The model's parameters, in order.
    pub fn params(&self) -> (r: Vec<u128>)
        requires
            self@.wf(),
        ensures
            r@ == self@.params(),
    {
        let mut r: Vec<u128> = Vec::new();
        match self {
            ModelForm::Constant { value } => {
                r.push(*value as u128);
            },
            ModelForm::Line { x0, shift, y0, umax, a, c_plus, c_minus, d } => {
                r.push(*x0 as u128);
                r.push(*shift as u128);
                r.push(*y0 as u128);
                r.push(*umax as u128);
                r.push(*a);
                r.push(*c_plus);
                r.push(*c_minus);
                r.push(*d);
            },
            ModelForm::Segments { xs, ys } => {
                let mut j: usize = 0;
                while j < xs.len()
                    invariant
                        j <= xs@.len(),
                        xs@.len() == ys@.len(),
                        r@.len() == 2 * j,
                        forall|i: int|
                            0 <= i < 2 * j ==> r@[i] == (if i % 2 == 0 {
                                xs@[i / 2] as u128
                            } else {
                                ys@[i / 2] as u128
                            }),
                    decreases xs@.len() - j,
                {
                    r.push(xs[j] as u128);
                    r.push(ys[j] as u128);
                    j += 1;
                }
            },
            ModelForm::Radix { shift, top, y0, span } => {
                r.push(*shift as u128);
                r.push(*top as u128);
                r.push(*y0 as u128);
                r.push(*span as u128);
            },
        }
        assert(r@ =~= self@.params());
        r
    }

    pub fn size_in_bytes(&self) -> (n: u64)
        ensures
            n == clamp_u64(self@.size() as int),
    {
        match self {
            ModelForm::Constant { .. } => 8,
            ModelForm::Line { .. } => 96,
            ModelForm::Segments { xs, .. } => clamp_to_u64(16u128 * (xs.len() as u128)),
            ModelForm::Radix { .. } => 32,
        }
    }
}

/// A trained model: its kind and the form that the fit gave it.
#[derive(Debug)]
pub struct Model {
    pub kind: ModelKind,
    pub form: ModelForm,
}

impl Model {
    /// The position that the model gives for `key`.
    pub fn predict_to_int(&self, key: u64) -> (p: u64)
        requires
            self.form@.wf(),
        ensures
            p == self.form@.predict(key),
    {
        self.form.predict(key)
    }

    /// The model's parameters, in order.
    pub fn params(&self) -> (r: Vec<u128>)
        requires
            self.form@.wf(),
        ensures
            r@ == self.form@.params(),
    {
        self.form.params()
    }

    pub fn size_in_bytes(&self) -> (n: u64)
        ensures
            n == clamp_u64(self.form@.size() as int),
    {
        self.form.size_in_bytes()
    }

    pub fn restriction(&self) -> (r: ModelRestriction)
        ensures
            r == self.kind.restriction_spec(),
    {
        self.kind.restriction()
    }
}

} // verus!
