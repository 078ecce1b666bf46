//! A spline over the keys whose segments stay within half a line of the
//! true positions.
//!
//! The spline runs through some of the keys, its anchors. Between two
//! anchors next to each other the straight line from one to the other gives,
//! for every key, a position no further than the radius from the first
//! position at which the key stands.
use vstd::prelude::*;
use crate::data::RMITrainingData;

verus! {

/// The keys stand in ascending order.
pub open spec fn sorted(keys: Seq<u64>) -> bool {
    forall|i: int, j: int| 0 <= i <= j < keys.len() ==> keys[i] <= keys[j]
}

/// The key at index `i` stands there for the first time.
pub open spec fn is_first(keys: Seq<u64>, i: int) -> bool {
    0 <= i < keys.len() && (i == 0 || keys[i - 1] < keys[i])
}

/// The radius that a line of `line_size` positions leaves on each side of
/// its middle.
pub open spec fn radius_of(line_size: usize) -> nat {
    if line_size == 0 {
        0
    } else {
        ((line_size - 1) / 2) as nat
    }
}

/// The corridor of the segment that is being drawn: the slopes from the
/// base that pass within the radius of every key since the base.
pub ghost struct Corridor {
    /// The index of the segment's first key.
    pub base: int,
    /// The index of the last key that was taken into the segment.
    pub prev: int,
    /// The least slope, as a fraction.
    pub lo_n: int,
    pub lo_d: int,
    /// The largest slope, as a fraction; a denominator of zero stands for
    /// no bound.
    pub hi_n: int,
    pub hi_d: int,
}

/// The corridor of a segment that starts at `base` and holds nothing yet.
pub open spec fn fresh(base: int) -> Corridor {
    Corridor { base, prev: base, lo_n: 0, lo_d: 1, hi_n: 1, hi_d: 0 }
}

/// The slope from the base to the key at index `i` lies in the corridor.
pub open spec fn admits(c: Corridor, keys: Seq<u64>, i: int) -> bool {
    let dx = keys[i] - keys[c.base];
    let dy = i - c.base;
    c.lo_n * dx <= dy * c.lo_d && dy * c.hi_d <= c.hi_n * dx
}

/// The corridor narrowed to the slopes that pass within `e` of the key at
/// index `i`, which becomes the last key of the segment.
pub open spec fn narrowed(c: Corridor, keys: Seq<u64>, e: int, i: int) -> Corridor {
    let dx = keys[i] - keys[c.base];
    let dy = i - c.base;
    let below = if dy > e {
        dy - e
    } else {
        0
    };
    let above = if dy + e > u64::MAX {
        u64::MAX as int
    } else {
        dy + e
    };
    let raise = below * c.lo_d > c.lo_n * dx;
    let lower = c.hi_d == 0 || above * c.hi_d < c.hi_n * dx;
    Corridor {
        base: c.base,
        prev: i,
        lo_n: if raise {
            below
        } else {
            c.lo_n
        },
        lo_d: if raise {
            dx
        } else {
            c.lo_d
        },
        hi_n: if lower {
            above
        } else {
            c.hi_n
        },
        hi_d: if lower {
            dx
        } else {
            c.hi_d
        },
    }
}

/// The anchors that follow the base of the corridor, from index `i` on: a
/// key that the corridor does not admit ends the segment at the key before
/// it, and the last key ends the last segment.
pub open spec fn anchors_from(keys: Seq<u64>, e: int, i: int, c: Corridor) -> Seq<(u64, usize)>
    decreases keys.len() - i,
{
    if i >= keys.len() {
        if c.prev > c.base {
            seq![(keys[c.prev], c.prev as usize)]
        } else {
            Seq::empty()
        }
    } else if !is_first(keys, i) {
        anchors_from(keys, e, i + 1, c)
    } else if admits(c, keys, i) {
        anchors_from(keys, e, i + 1, narrowed(c, keys, e, i))
    } else {
        seq![(keys[c.prev], c.prev as usize)] + anchors_from(
            keys,
            e,
            i + 1,
            narrowed(fresh(c.prev), keys, e, i),
        )
    }
}

/// The spline over the keys for the radius `e`: the first key, then the
/// anchors that follow it.
pub open spec fn spline_of(keys: Seq<u64>, e: int) -> Seq<(u64, usize)> {
    if keys.len() == 0 {
        Seq::empty()
    } else {
        seq![(keys[0], 0usize)] + anchors_from(keys, e, 1, fresh(0))
    }
}

/// The corridor as the machine holds it.
struct CorridorExec {
    base: usize,
    prev: usize,
    lo_n: u64,
    lo_d: u64,
    hi_n: u64,
    hi_d: u64,
}

impl View for CorridorExec {
    type V = Corridor;

    closed spec fn view(&self) -> Corridor {
        Corridor {
            base: self.base as int,
            prev: self.prev as int,
            lo_n: self.lo_n as int,
            lo_d: self.lo_d as int,
            hi_n: self.hi_n as int,
            hi_d: self.hi_d as int,
        }
    }
}

fn product(a: u64, b: u64) -> (r: u128)
    ensures
        r == a * b,
{
    assert(a * b <= 0xffff_ffff_ffff_ffff * 0xffff_ffff_ffff_ffff) by (nonlinear_arith)
        requires
            a <= 0xffff_ffff_ffff_ffff,
            b <= 0xffff_ffff_ffff_ffff,
    ;
    (a as u128) * (b as u128)
}

fn narrow(c: &CorridorExec, keys: &Vec<u64>, e: u64, i: usize) -> (r: CorridorExec)
    requires
        c.base < i < keys@.len(),
        keys@[c.base as int] <= keys@[i as int],
    ensures
        r@ == narrowed(c@, keys@, e as int, i as int),
{
    let dx: u64 = keys[i] - keys[c.base];
    let dy: u64 = (i - c.base) as u64;
    let below: u64 = if dy > e {
        dy - e
    } else {
        0
    };
    let above: u64 = dy.saturating_add(e);
    let raise = product(below, c.lo_d) > product(c.lo_n, dx);
    let lower = c.hi_d == 0 || product(above, c.hi_d) < product(c.hi_n, dx);
    CorridorExec {
        base: c.base,
        prev: i,
        lo_n: if raise {
            below
        } else {
            c.lo_n
        },
        lo_d: if raise {
            dx
        } else {
            c.lo_d
        },
        hi_n: if lower {
            above
        } else {
            c.hi_n
        },
        hi_d: if lower {
            dx
        } else {
            c.hi_d
        },
    }
}

/// The radius for a line size, as the machine counts it.
pub fn radius(line_size: usize) -> (e: u64)
    ensures
        e == radius_of(line_size),
{
    if line_size == 0 {
        0
    } else {
        ((line_size - 1) / 2) as u64
    }
}

/// Whether the keys stand in ascending order.
pub fn is_sorted(keys: &Vec<u64>) -> (r: bool)
    ensures
        r == sorted(keys@),
{
    let mut i: usize = 1;
    while i < keys.len()
        invariant
            1 <= i,
            forall|a: int, b: int| 0 <= a <= b < i && b < keys@.len() ==> keys@[a] <= keys@[b],
        decreases keys@.len() - i,
    {
        if keys[i - 1] > keys[i] {
            return false;
        }
        assert forall|a: int, b: int| 0 <= a <= b < i + 1 && b < keys@.len() implies keys@[a]
            <= keys@[b] by {
            if b == i && a < i {
                assert(keys@[a] <= keys@[i - 1]);
            }
        }
        i += 1;
    }
    true
}

/// Draws the spline over the keys for a line of `line_size` positions.
pub fn cache_fix_keys(keys: &Vec<u64>, line_size: usize) -> (spline: Vec<(u64, usize)>)
    requires
        sorted(keys@),
    ensures
        spline@ == spline_of(keys@, radius_of(line_size) as int),
{
    let n: usize = keys.len();
    let e: u64 = radius(line_size);
    let mut spline: Vec<(u64, usize)> = Vec::new();
    if n == 0 {
        return spline;
    }
    spline.push((keys[0], 0));
    let mut c = CorridorExec { base: 0, prev: 0, lo_n: 0, lo_d: 1, hi_n: 1, hi_d: 0 };
    let mut i: usize = 1;
    while i < n
        invariant
            1 <= i <= n,
            n == keys@.len(),
            e == radius_of(line_size),
            sorted(keys@),
            c.base <= c.prev < i,
            spline@ + anchors_from(keys@, e as int, i as int, c@) == spline_of(keys@, e as int),
        decreases n - i,
    {
        if keys[i - 1] < keys[i] {
            let dx: u64 = keys[i] - keys[c.base];
            let dy: u64 = (i - c.base) as u64;
            if product(c.lo_n, dx) <= product(dy, c.lo_d) && product(dy, c.hi_d) <= product(
                c.hi_n,
                dx,
            ) {
                c = narrow(&c, keys, e, i);
            } else {
                let ghost before = spline@;
                let ghost rest = anchors_from(
                    keys@,
                    e as int,
                    i + 1,
                    narrowed(fresh(c.prev as int), keys@, e as int, i as int),
                );
                spline.push((keys[c.prev], c.prev));
                proof {
                    assert(spline@ + rest =~= before + (seq![(keys@[c.prev as int], c.prev)]
                        + rest));
                }
                let restart = CorridorExec {
                    base: c.prev,
                    prev: c.prev,
                    lo_n: 0,
                    lo_d: 1,
                    hi_n: 1,
                    hi_d: 0,
                };
                c = narrow(&restart, keys, e, i);
            }
        }
        i += 1;
    }
    if c.prev > c.base {
        let ghost before = spline@;
        spline.push((keys[c.prev], c.prev));
        proof {
            assert(spline@ =~= before + seq![(keys@[c.prev as int], c.prev)]);
        }
    } else {
        proof {
            assert(spline@ + Seq::empty() =~= spline@);
        }
    }
    spline
}

/// The fraction `an / ad` is no larger than `bn / bd`.
pub open spec fn frac_le(an: int, ad: int, bn: int, bd: int) -> bool {
    an * bd <= bn * ad
}

/// Fractions with denominators above zero are ordered in a chain.
pub proof fn lemma_frac_chain(an: int, ad: int, bn: int, bd: int, cn: int, cd: int)
    requires
        frac_le(an, ad, bn, bd),
        frac_le(bn, bd, cn, cd),
        ad >= 0,
        bd > 0,
        cd >= 0,
    ensures
        frac_le(an, ad, cn, cd),
{
    assert(an * bd * cd <= bn * ad * cd) by (nonlinear_arith)
        requires
            an * bd <= bn * ad,
            cd >= 0,
    ;
    assert(bn * cd * ad <= cn * bd * ad) by (nonlinear_arith)
        requires
            bn * cd <= cn * bd,
            ad >= 0,
    ;
    assert(an * cd <= cn * ad) by (nonlinear_arith)
        requires
            an * bd * cd <= bn * ad * cd,
            bn * cd * ad <= cn * bd * ad,
            bd > 0,
    ;
}

/// Where `low / d <= n / m <= high / d` as fractions, the quotient of
/// `n * d` by `m`, rounded down, lies from `low` to `high`.
pub proof fn lemma_quotient_between(low: int, high: int, d: int, n: int, m: int)
    requires
        m > 0,
        d >= 0,
        n >= 0,
        low * m <= n * d,
        n * d <= high * m,
    ensures
        low <= (n * d) / m <= high,
{
    let q = (n * d) / m;
    assert(q * m <= n * d < (q + 1) * m) by (nonlinear_arith)
        requires
            q == (n * d) / m,
            m > 0,
    ;
    assert(low <= q) by (nonlinear_arith)
        requires
            low * m <= n * d,
            n * d < (q + 1) * m,
            m > 0,
    ;
    assert(q <= high) by (nonlinear_arith)
        requires
            q * m <= n * d,
            n * d <= high * m,
            m > 0,
    ;
}

/// The position that the line from the key `ka` at position `pa` to the
/// key `kb` at position `pb` gives for `key`.
pub open spec fn on_line(ka: u64, pa: int, kb: u64, pb: int, key: u64) -> int {
    pa + ((pb - pa) * (key - ka)) / (kb - ka)
}

/// The line from the key at index `a` to the key at index `b` gives, for
/// every key that first stands between them, a position within `e` of
/// where it stands.
pub open spec fn segment_holds(keys: Seq<u64>, e: int, a: int, b: int) -> bool {
    forall|j: int|
        a <= j <= b && #[trigger] is_first(keys, j) ==> j - e <= on_line(
            keys[a],
            a,
            keys[b],
            b,
            keys[j],
        ) <= j + e
}

/// The slopes of the corridor pass within `e` of the key at index `j`.
pub open spec fn passes(c: Corridor, keys: Seq<u64>, e: int, j: int) -> bool {
    let dx = keys[j] - keys[c.base];
    let dy = j - c.base;
    frac_le(dy - e, dx, c.lo_n, c.lo_d) && frac_le(c.hi_n, c.hi_d, dy + e, dx)
}

/// What holds of the corridor before index `i` is looked at.
pub open spec fn corridor_holds(c: Corridor, keys: Seq<u64>, e: int, i: int) -> bool {
    &&& 0 <= c.base <= c.prev < i <= keys.len()
    &&& is_first(keys, c.base)
    &&& is_first(keys, c.prev)
    &&& forall|j: int| c.prev < j < i ==> !#[trigger] is_first(keys, j)
    &&& c.lo_d > 0 && c.lo_n >= 0 && c.hi_n >= 0 && c.hi_d >= 0
    &&& c.prev == c.base ==> c == fresh(c.base)
    &&& c.prev > c.base ==> c.hi_d > 0 && admits(c, keys, c.prev)
    &&& forall|j: int| c.base < j <= c.prev && #[trigger] is_first(keys, j) ==> passes(c, keys, e, j)
}

/// Keys that first stand at different indices differ, and stand in the
/// order of their indices.
pub proof fn lemma_first_keys_ascend(keys: Seq<u64>, a: int, b: int)
    requires
        sorted(keys),
        0 <= a < b < keys.len(),
        is_first(keys, b),
    ensures
        keys[a] < keys[b],
{
    assert(keys[a] <= keys[b - 1]);
}

/// A corridor through whose slopes the way to the last key leads makes a
/// segment that holds.
pub proof fn lemma_segment_holds(c: Corridor, keys: Seq<u64>, e: int, i: int)
    requires
        sorted(keys),
        e >= 0,
        corridor_holds(c, keys, e, i),
        c.prev > c.base,
    ensures
        segment_holds(keys, e, c.base, c.prev),
{
    let a = c.base;
    let b = c.prev;
    lemma_first_keys_ascend(keys, a, b);
    let big_dx = keys[b] - keys[a];
    let big_dy = b - a;
    assert forall|j: int| a <= j <= b && #[trigger] is_first(keys, j) implies j - e <= on_line(
        keys[a],
        a,
        keys[b],
        b,
        keys[j],
    ) <= j + e by {
        let dx = keys[j] - keys[a];
        let dy = j - a;
        if j == a {
            assert((big_dy * 0) / big_dx == 0) by (nonlinear_arith)
                requires
                    big_dx > 0,
            ;
        } else {
            lemma_first_keys_ascend(keys, a, j);
            assert(passes(c, keys, e, j));
            // (dy - e) / dx <= lo <= big_dy / big_dx <= hi <= (dy + e) / dx
            lemma_frac_chain(dy - e, dx, c.lo_n, c.lo_d, big_dy, big_dx);
            lemma_frac_chain(big_dy, big_dx, c.hi_n, c.hi_d, dy + e, dx);
            assert((dy - e) * big_dx <= big_dy * dx);
            assert(big_dy * dx <= (dy + e) * big_dx);
            lemma_quotient_between(dy - e, dy + e, dx, big_dy, big_dx);
        }
    }
}

/// Narrowing keeps what holds of the corridor.
pub proof fn lemma_narrowed_holds(c: Corridor, keys: Seq<u64>, e: int, i: int)
    requires
        sorted(keys),
        keys.len() <= usize::MAX,
        e >= 0,
        corridor_holds(c, keys, e, i),
        is_first(keys, i),
        admits(c, keys, i),
    ensures
        corridor_holds(narrowed(c, keys, e, i), keys, e, i + 1),
{
    let d = narrowed(c, keys, e, i);
    lemma_first_keys_ascend(keys, c.base, i);
    let dx = keys[i] - keys[c.base];
    let dy = i - c.base;
    let below = if dy > e {
        dy - e
    } else {
        0
    };
    let above = if dy + e > u64::MAX {
        u64::MAX as int
    } else {
        dy + e
    };
    // the new bounds lie inside the old ones
    assert(frac_le(c.lo_n, c.lo_d, d.lo_n, d.lo_d));
    assert(frac_le(d.hi_n, d.hi_d, c.hi_n, c.hi_d)) by {
        if c.hi_d == 0 {
            assert(d.hi_n * 0 <= c.hi_n * d.hi_d) by (nonlinear_arith)
                requires
                    c.hi_n >= 0,
                    d.hi_d >= 0,
            ;
        }
    }
    // the way to the new key leads through the new corridor
    assert(frac_le(below, dx, dy, dx)) by (nonlinear_arith)
        requires
            below <= dy,
            dx > 0,
    ;
    assert(frac_le(dy, dx, above, dx)) by (nonlinear_arith)
        requires
            dy <= above,
            dx > 0,
    ;
    assert(frac_le(above, dx, dy + e, dx)) by (nonlinear_arith)
        requires
            above <= dy + e,
            dx > 0,
    ;
    assert(admits(d, keys, i));
    // and the new corridor passes the new key
    assert(frac_le(dy - e, dx, below, dx)) by (nonlinear_arith)
        requires
            dy - e <= below,
            dx > 0,
    ;
    assert(frac_le(below, dx, d.lo_n, d.lo_d));
    lemma_frac_chain(dy - e, dx, below, dx, d.lo_n, d.lo_d);
    assert(frac_le(d.hi_n, d.hi_d, above, dx));
    lemma_frac_chain(d.hi_n, d.hi_d, above, dx, dy + e, dx);
    assert(passes(d, keys, e, i));
    assert forall|j: int| d.base < j <= d.prev && #[trigger] is_first(keys, j) implies passes(
        d,
        keys,
        e,
        j,
    ) by {
        if j < i {
            assert(j <= c.prev);
            assert(passes(c, keys, e, j));
            lemma_first_keys_ascend(keys, c.base, j);
            let dxj = keys[j] - keys[c.base];
            let dyj = j - c.base;
            lemma_frac_chain(dyj - e, dxj, c.lo_n, c.lo_d, d.lo_n, d.lo_d);
            if c.hi_d > 0 {
                lemma_frac_chain(d.hi_n, d.hi_d, c.hi_n, c.hi_d, dyj + e, dxj);
            }
        }
    }
}

/// A corridor that holds nothing yet admits every later key.
pub proof fn lemma_fresh_admits(keys: Seq<u64>, base: int, i: int)
    requires
        0 <= base < i < keys.len(),
        keys[base] <= keys[i],
    ensures
        admits(fresh(base), keys, i),
{
    let dx = keys[i] - keys[base];
    let dy = i - base;
    assert(0 * dx <= dy * 1) by (nonlinear_arith)
        requires
            dy >= 0,
    ;
    assert(dy * 0 <= 1 * dx) by (nonlinear_arith)
        requires
            dx >= 0,
    ;
}

/// What holds of the anchors that follow a base.
pub open spec fn anchors_hold(out: Seq<(u64, usize)>, keys: Seq<u64>, e: int, base: int) -> bool {
    &&& forall|k: int|
        0 <= k < out.len() ==> is_first(keys, (#[trigger] out[k]).1 as int) && out[k].0
            == keys[out[k].1 as int] && out[k].1 > base
    &&& forall|j: int, k: int|
        0 <= j && k == j + 1 && k < out.len() ==> (#[trigger] out[j]).1 < (#[trigger] out[k]).1
            && segment_holds(keys, e, out[j].1 as int, out[k].1 as int)
    &&& out.len() > 0 ==> segment_holds(keys, e, base, out[0].1 as int) && keys[out[out.len()
        - 1].1 as int] == keys[keys.len() - 1]
}

/// The anchors that follow the base of a corridor hold, and where there are
/// none the base holds the last key.
pub proof fn lemma_anchors_from(keys: Seq<u64>, e: int, i: int, c: Corridor)
    requires
        sorted(keys),
        keys.len() <= usize::MAX,
        e >= 0,
        corridor_holds(c, keys, e, i),
    ensures
        anchors_hold(anchors_from(keys, e, i, c), keys, e, c.base),
        anchors_from(keys, e, i, c).len() == 0 ==> keys[c.base] == keys[keys.len() - 1],
        anchors_from(keys, e, i, c).len() > 0 ==> anchors_from(keys, e, i, c)[0].1 >= c.prev,
    decreases keys.len() - i,
{
    let out = anchors_from(keys, e, i, c);
    let n = keys.len() as int;
    if i >= n {
        if c.prev > c.base {
            lemma_segment_holds(c, keys, e, i);
            lemma_last_key(keys, c.prev);
        } else {
            lemma_last_key(keys, c.prev);
        }
    } else if !is_first(keys, i) {
        lemma_anchors_from(keys, e, i + 1, c);
    } else if admits(c, keys, i) {
        lemma_narrowed_holds(c, keys, e, i);
        lemma_anchors_from(keys, e, i + 1, narrowed(c, keys, e, i));
    } else {
        // a fresh corridor admits every key
        assert(c.prev > c.base) by {
            if c.prev == c.base {
                lemma_first_keys_ascend(keys, c.base, i);
                lemma_fresh_admits(keys, c.base, i);
            }
        }
        lemma_segment_holds(c, keys, e, i);
        let start = fresh(c.prev);
        assert(corridor_holds(start, keys, e, i));
        lemma_first_keys_ascend(keys, c.prev, i);
        lemma_fresh_admits(keys, c.prev, i);
        lemma_narrowed_holds(start, keys, e, i);
        let next = narrowed(start, keys, e, i);
        lemma_anchors_from(keys, e, i + 1, next);
        let rest = anchors_from(keys, e, i + 1, next);
        let head = (keys[c.prev], c.prev as usize);
        assert(out =~= seq![head] + rest);
        assert(rest.len() > 0) by {
            // the corridor from the new base holds a key behind it
            lemma_anchors_nonempty(keys, e, i + 1, next);
        }
        assert forall|k: int| 0 <= k < out.len() implies is_first(
            keys,
            (#[trigger] out[k]).1 as int,
        ) && out[k].0 == keys[out[k].1 as int] && out[k].1 > c.base by {
            if k > 0 {
                assert(out[k] == rest[k - 1]);
            }
        }
        assert forall|j: int, k: int| 0 <= j && k == j + 1 && k < out.len() implies (
        #[trigger] out[j]).1 < (#[trigger] out[k]).1 && segment_holds(
            keys,
            e,
            out[j].1 as int,
            out[k].1 as int,
        ) by {
            if j > 0 {
                assert(out[j] == rest[j - 1]);
                assert(out[k] == rest[k - 1]);
            } else {
                assert(out[1] == rest[0]);
            }
        }
        assert(out[out.len() - 1] == rest[rest.len() - 1]);
    }
}

/// A corridor that holds a key behind its base gives at least one anchor.
pub proof fn lemma_anchors_nonempty(keys: Seq<u64>, e: int, i: int, c: Corridor)
    requires
        c.prev > c.base,
        c.base < i <= keys.len(),
    ensures
        anchors_from(keys, e, i, c).len() > 0,
    decreases keys.len() - i,
{
    if i >= keys.len() {
    } else if !is_first(keys, i) {
        lemma_anchors_nonempty(keys, e, i + 1, c);
    } else if admits(c, keys, i) {
        lemma_anchors_nonempty(keys, e, i + 1, narrowed(c, keys, e, i));
    } else {
    }
}

/// Where no key first stands behind index `p`, the key at `p` is the last
/// key.
pub proof fn lemma_last_key(keys: Seq<u64>, p: int)
    requires
        sorted(keys),
        0 <= p < keys.len(),
        forall|j: int| p < j < keys.len() ==> !#[trigger] is_first(keys, j),
    ensures
        keys[p] == keys[keys.len() - 1],
{
    lemma_run_of_equal_keys(keys, p, keys.len() - 1);
}

proof fn lemma_run_of_equal_keys(keys: Seq<u64>, p: int, q: int)
    requires
        sorted(keys),
        0 <= p <= q < keys.len(),
        forall|j: int| p < j <= q ==> !#[trigger] is_first(keys, j),
    ensures
        keys[p] == keys[q],
    decreases q - p,
{
    if p < q {
        lemma_run_of_equal_keys(keys, p, q - 1);
        assert(!is_first(keys, q));
        assert(keys[q - 1] <= keys[q]);
    }
}

/// What holds of a spline over the keys.
pub open spec fn spline_holds(spline: Seq<(u64, usize)>, keys: Seq<u64>, e: int) -> bool {
    &&& spline.len() >= 1
    &&& spline[0] == (keys[0], 0usize)
    &&& forall|k: int|
        0 <= k < spline.len() ==> is_first(keys, (#[trigger] spline[k]).1 as int) && spline[k].0
            == keys[spline[k].1 as int]
    &&& forall|j: int, k: int|
        0 <= j && k == j + 1 && k < spline.len() ==> (#[trigger] spline[j]).1 < (
        #[trigger] spline[k]).1 && segment_holds(keys, e, spline[j].1 as int, spline[k].1 as int)
    &&& keys[spline[spline.len() - 1].1 as int] == keys[keys.len() - 1]
}

/// The spline over sorted keys starts at the first key and ends at the
/// last; its anchors are keys, each where it first stands, in ascending
/// order; and between two anchors next to each other the line from one to
/// the other gives, for every key, a position within the radius of where
/// the key first stands.
pub proof fn lemma_spline(keys: Seq<u64>, e: int)
    requires
        sorted(keys),
        1 <= keys.len() <= usize::MAX,
        e >= 0,
    ensures
        spline_holds(spline_of(keys, e), keys, e),
{
    let c = fresh(0);
    assert(corridor_holds(c, keys, e, 1));
    lemma_anchors_from(keys, e, 1, c);
    let rest = anchors_from(keys, e, 1, c);
    let spline = spline_of(keys, e);
    let head = (keys[0], 0usize);
    assert(spline =~= seq![head] + rest);
    assert forall|k: int| 0 <= k < spline.len() implies is_first(
        keys,
        (#[trigger] spline[k]).1 as int,
    ) && spline[k].0 == keys[spline[k].1 as int] by {
        if k > 0 {
            assert(spline[k] == rest[k - 1]);
        }
    }
    assert forall|j: int, k: int| 0 <= j && k == j + 1 && k < spline.len() implies (
    #[trigger] spline[j]).1 < (#[trigger] spline[k]).1 && segment_holds(
        keys,
        e,
        spline[j].1 as int,
        spline[k].1 as int,
    ) by {
        if j > 0 {
            assert(spline[j] == rest[j - 1]);
            assert(spline[k] == rest[k - 1]);
        } else {
            assert(spline[1] == rest[0]);
        }
    }
    if rest.len() > 0 {
        assert(spline[spline.len() - 1] == rest[rest.len() - 1]);
    }
}

/// Anchor `j` is the last whose key is no larger than `key`.
pub open spec fn brackets(spline: Seq<(u64, usize)>, j: int, key: u64) -> bool {
    &&& 0 <= j < spline.len()
    &&& spline[j].0 <= key
    &&& j + 1 < spline.len() ==> key < spline[j + 1].0
}

/// The position that the spline gives for `key` in the segment that starts
/// at anchor `j`: the position on the line to the next anchor, or the
/// anchor's own position where no line leads on.
pub open spec fn estimate(spline: Seq<(u64, usize)>, j: int, key: u64) -> int {
    if j + 1 < spline.len() && spline[j].0 <= key && spline[j].0 < spline[j + 1].0 && spline[j].1
        <= spline[j + 1].1 {
        on_line(spline[j].0, spline[j].1 as int, spline[j + 1].0, spline[j + 1].1 as int, key)
    } else {
        spline[j].1 as int
    }
}

/// The positions from `est - e` up to `est + e`, as far as they lie among
/// the first `n`: the first of them, and the one behind the last.
pub open spec fn window_around(est: int, e: int, n: int) -> (int, int) {
    let lo = if est > e {
        est - e
    } else {
        0
    };
    let hi = if est + e + 1 < n {
        est + e + 1
    } else {
        n
    };
    let first = if lo < n {
        lo
    } else {
        n
    };
    (
        first,
        if hi > first {
            hi
        } else {
            first
        },
    )
}

/// Finds the last anchor whose key is no larger than `key`, among the
/// anchors from index `from` up to index `to`.
pub fn segment_within(spline: &Vec<(u64, usize)>, key: u64, from: usize, to: usize) -> (j: usize)
    requires
        from < to <= spline@.len(),
        spline@[from as int].0 <= key,
        to < spline@.len() ==> key < spline@[to as int].0,
    ensures
        brackets(spline@, j as int, key),
        from <= j < to,
{
    let mut lo: usize = from;
    let mut hi: usize = to;
    while hi - lo > 1
        invariant
            from <= lo < hi <= to <= spline@.len(),
            spline@[lo as int].0 <= key,
            hi < spline@.len() ==> key < spline@[hi as int].0,
        decreases hi - lo,
    {
        let mid: usize = lo + (hi - lo) / 2;
        if spline[mid].0 <= key {
            lo = mid;
        } else {
            hi = mid;
        }
    }
    lo
}

/// Finds the last anchor whose key is no larger than `key`.
pub fn segment_of(spline: &Vec<(u64, usize)>, key: u64) -> (j: usize)
    requires
        spline@.len() >= 1,
        spline@[0].0 <= key,
    ensures
        brackets(spline@, j as int, key),
{
    segment_within(spline, key, 0, spline.len())
}

/// Finds the last anchor whose key is no larger than `key`, looking first
/// among the anchors from index `near.0` to index `near.1`, and among all
/// of them where the key does not lie there.
pub fn segment_near(spline: &Vec<(u64, usize)>, key: u64, near: (usize, usize)) -> (j: usize)
    requires
        spline@.len() >= 1,
        spline@[0].0 <= key,
    ensures
        brackets(spline@, j as int, key),
{
    let len: usize = spline.len();
    let from: usize = if near.0 < len {
        near.0
    } else {
        len - 1
    };
    let to: usize = if near.1 < len - 1 {
        near.1 + 1
    } else {
        len
    };
    if from < to && spline[from].0 <= key && (to >= len || key < spline[to].0) {
        segment_within(spline, key, from, to)
    } else {
        segment_of(spline, key)
    }
}

fn estimate_exec(spline: &Vec<(u64, usize)>, j: usize, key: u64) -> (est: usize)
    requires
        j < spline@.len(),
    ensures
        est == estimate(spline@, j as int, key) || (est == usize::MAX && estimate(
            spline@,
            j as int,
            key,
        ) > usize::MAX),
{
    let a = spline[j];
    if j < spline.len() - 1 {
        let b = spline[j + 1];
        if a.0 <= key && a.0 < b.0 && a.1 <= b.1 {
            let rise: u64 = (b.1 - a.1) as u64;
            let run: u64 = key - a.0;
            let q: u128 = product(rise, run) / ((b.0 - a.0) as u128);
            assert(q <= rise * run) by (nonlinear_arith)
                requires
                    q == (rise * run) / ((b.0 - a.0) as int),
                    b.0 - a.0 >= 1,
                    rise * run >= 0,
            ;
            assert(rise * run <= 0xffff_ffff_ffff_ffff * 0xffff_ffff_ffff_ffff) by (nonlinear_arith)
                requires
                    0 <= rise <= 0xffff_ffff_ffff_ffff,
                    0 <= run <= 0xffff_ffff_ffff_ffff,
            ;
            let at: u128 = a.1 as u128 + q;
            return if at > usize::MAX as u128 {
                usize::MAX
            } else {
                at as usize
            };
        }
    }
    a.1
}

/// The window of positions that a lookup of `key` probes: those within the
/// radius of the position that the spline gives for the key, among the
/// first `num_rows`. Where the spline is empty or starts above the key the
/// window is empty.
pub fn probe_window(spline: &Vec<(u64, usize)>, line_size: usize, num_rows: usize, key: u64) -> (w:
    (usize, usize))
    ensures
        window_given(w, spline@, line_size, num_rows, key),
{
    probe_window_near(spline, line_size, num_rows, key, None)
}

/// What holds of the window `w` of positions that a lookup of `key` probes:
/// it lies among the first `num_rows` positions and is no longer than the
/// line; it is empty where the spline is empty or starts above the key; and
/// else it is the window around the position that the spline gives for the
/// key in the segment of the last anchor that is no larger than the key.
pub open spec fn window_given(
    w: (usize, usize),
    spline: Seq<(u64, usize)>,
    line_size: usize,
    num_rows: usize,
    key: u64,
) -> bool {
    &&& w.0 <= w.1 <= num_rows
    &&& line_size >= 1 ==> w.1 - w.0 <= line_size
    &&& spline.len() == 0 || key < spline[0].0 ==> w.0 == w.1
    &&& spline.len() >= 1 && spline[0].0 <= key ==> exists|j: int| #[trigger]
        brackets(spline, j, key) && (estimate(spline, j, key) <= usize::MAX ==> (
        w.0 as int,
        w.1 as int,
    ) == window_around(estimate(spline, j, key), radius_of(line_size) as int, num_rows as int))
}

/// The window of positions that a lookup of `key` probes, found with the
/// help of a range of anchors near which the key's segment is thought to
/// lie. The range speeds the search and does not change what is found.
pub fn probe_window_near(
    spline: &Vec<(u64, usize)>,
    line_size: usize,
    num_rows: usize,
    key: u64,
    near: Option<(usize, usize)>,
) -> (w: (usize, usize))
    ensures
        window_given(w, spline@, line_size, num_rows, key),
{
    if spline.len() == 0 || key < spline[0].0 {
        return (0, 0);
    }
    let e: usize = if line_size == 0 {
        0
    } else {
        (line_size - 1) / 2
    };
    let j = match near {
        Some(near) => segment_near(spline, key, near),
        None => segment_of(spline, key),
    };
    let est = estimate_exec(spline, j, key);
    assert(brackets(spline@, j as int, key));
    let lo: usize = if est > e {
        est - e
    } else {
        0
    };
    let hi: usize = if est < num_rows && e < num_rows - est - 1 {
        est + e + 1
    } else {
        num_rows
    };
    let lo: usize = if lo < num_rows {
        lo
    } else {
        num_rows
    };
    let hi: usize = if hi > lo {
        hi
    } else {
        lo
    };
    (lo, hi)
}

/// The window of a key of the data holds the position at which the key
/// first stands: with the spline of sorted keys, the position that the
/// spline gives for a key lies within the radius of that position.
pub proof fn lemma_window_holds(
    keys: Seq<u64>,
    spline: Seq<(u64, usize)>,
    e: int,
    j: int,
    i: int,
)
    requires
        sorted(keys),
        keys.len() <= usize::MAX,
        e >= 0,
        spline_holds(spline, keys, e),
        is_first(keys, i),
        brackets(spline, j, keys[i]),
    ensures
        i - e <= estimate(spline, j, keys[i]) <= i + e,
        window_around(estimate(spline, j, keys[i]), e, keys.len() as int).0 <= i < window_around(
            estimate(spline, j, keys[i]),
            e,
            keys.len() as int,
        ).1,
{
    let key = keys[i];
    let a = spline[j].1 as int;
    assert(is_first(keys, a) && spline[j].0 == keys[a]);
    if a > i {
        lemma_first_keys_ascend(keys, i, a);
    }
    if j + 1 < spline.len() {
        let b = spline[j + 1].1 as int;
        assert(is_first(keys, b) && spline[j + 1].0 == keys[b]);
        assert(spline[j].1 < spline[j + 1].1 && segment_holds(keys, e, a, b));
        if b <= i {
            assert(keys[b] <= keys[i]);
        }
        lemma_first_keys_ascend(keys, a, b);
        assert(a <= i <= b && is_first(keys, i));
    } else {
        // the last anchor holds the last key, so the key is the last key
        assert(keys[a] == keys[keys.len() - 1]);
        assert(keys[i] <= keys[keys.len() - 1]);
        if a < i {
            lemma_first_keys_ascend(keys, a, i);
        }
    }
}

/// A lookup in a bounded index touches one line: for the key of any pair of
/// sorted data, the window that is probed with the spline of the data holds
/// the position at which the key first stands, and is no longer than the
/// line.
pub proof fn lemma_lookup_in_one_line(keys: Seq<u64>, line_size: usize, w: (usize, usize), i: int)
    requires
        sorted(keys),
        keys.len() <= usize::MAX,
        line_size >= 1,
        is_first(keys, i),
        i + radius_of(line_size) <= usize::MAX,
        window_given(
            w,
            spline_of(keys, radius_of(line_size) as int),
            line_size,
            keys.len() as usize,
            keys[i],
        ),
    ensures
        w.0 <= i < w.1,
        w.1 - w.0 <= line_size,
{
    let e = radius_of(line_size) as int;
    let spline = spline_of(keys, e);
    lemma_spline(keys, e);
    assert(keys[0] <= keys[i]);
    let j = choose|j: int| #[trigger]
        brackets(spline, j, keys[i]) && (estimate(spline, j, keys[i]) <= usize::MAX ==> (
        w.0 as int,
        w.1 as int,
    ) == window_around(estimate(spline, j, keys[i]), e, keys.len() as int));
    lemma_window_holds(keys, spline, e, j, i);
}

/// Draws the spline over the data's keys for a line of `line_size`
/// positions: the anchors with the positions at which they stand among the
/// data's pairs.
pub fn cache_fix(data: &RMITrainingData, line_size: usize) -> (spline: Vec<(u64, usize)>)
    requires
        sorted(data.keys_spec()),
    ensures
        spline@ == spline_of(data.keys_spec(), radius_of(line_size) as int),
{
    let keys = data.to_keys();
    cache_fix_keys(&keys, line_size)
}

} // verus!
