//! The configurations that the two phases of the search train.
use vstd::prelude::*;
use vstd::string::*;
use vstd::utf8::encode_utf8;
use crate::layers::texts;
use crate::optimizer::profile::{
    anywhere_layers, anywhere_spec, branching_factors_spec, get_branching_factors, strs,
    top_only_layers, top_only_spec, OptimizerProfile,
};
use crate::optimizer::{pareto_front, pareto_front_spec, stat_views, RMIStatistics, Stats};
use crate::text::str_equal;

verus! {

/// What a list of configurations holds: for each, its layer list and its
/// branching factor.
pub open spec fn config_views(configs: Seq<(String, u64)>) -> Seq<(Seq<char>, u64)> {
    Seq::new(configs.len(), |i: int| (configs[i].0@, configs[i].1))
}

/// Every fifth of the factors, from the first on.
pub open spec fn every_fifth(factors: Seq<u64>) -> Seq<u64> {
    Seq::new(((factors.len() + 4) / 5) as nat, |f: int| factors[5 * f])
}

/// The layer list of a root and a leaf.
pub open spec fn pair_name(top: Seq<char>, bottom: Seq<char>) -> Seq<char> {
    top + seq![','] + bottom
}

/// The pair of models with each of the factors.
pub open spec fn pair_configs(top: Seq<char>, bottom: Seq<char>, factors: Seq<u64>) -> Seq<
    (Seq<char>, u64),
> {
    Seq::new(factors.len(), |f: int| (pair_name(top, bottom), factors[f]))
}

/// The root with each of the first `count` leaves in turn, each pair with
/// each of the factors.
pub open spec fn top_configs(
    top: Seq<char>,
    bottoms: Seq<Seq<char>>,
    factors: Seq<u64>,
    count: nat,
) -> Seq<(Seq<char>, u64)>
    decreases count,
{
    if count == 0 {
        Seq::empty()
    } else {
        top_configs(top, bottoms, factors, (count - 1) as nat) + pair_configs(
            top,
            bottoms[count - 1],
            factors,
        )
    }
}

/// Each of the first `count` roots in turn, with each leaf, with each
/// factor.
pub open spec fn phase_configs(
    tops: Seq<Seq<char>>,
    bottoms: Seq<Seq<char>>,
    factors: Seq<u64>,
    count: nat,
) -> Seq<(Seq<char>, u64)>
    decreases count,
{
    if count == 0 {
        Seq::empty()
    } else {
        phase_configs(tops, bottoms, factors, (count - 1) as nat) + top_configs(
            tops[count - 1],
            bottoms,
            factors,
            bottoms.len(),
        )
    }
}

/// The configurations of the first phase: every model as the root, with
/// every model that may stand anywhere as the leaf, at every fifth
/// branching factor.
pub open spec fn first_phase_spec(profile: OptimizerProfile) -> Seq<(Seq<char>, u64)> {
    let tops = top_only_spec(profile) + anywhere_spec(profile);
    phase_configs(
        tops,
        anywhere_spec(profile),
        every_fifth(branching_factors_spec(profile)),
        tops.len(),
    )
}

/// A root's configurations are as many as leaves times factors.
pub proof fn lemma_top_configs_len(
    top: Seq<char>,
    bottoms: Seq<Seq<char>>,
    factors: Seq<u64>,
    count: nat,
)
    ensures
        top_configs(top, bottoms, factors, count).len() == count * factors.len(),
    decreases count,
{
    let width = factors.len() as int;
    if count > 0 {
        let before = (count - 1) as nat;
        lemma_top_configs_len(top, bottoms, factors, before);
        assert(pair_configs(top, bottoms[count - 1], factors).len() == width);
        assert(before * width + width == count * width) by (nonlinear_arith)
            requires
                before == count - 1,
        ;
    } else {
        assert(count * width == 0) by (nonlinear_arith)
            requires
                count == 0,
        ;
    }
}

/// Among a root's configurations the leaves come in their order, and under
/// each leaf the factors in theirs.
pub proof fn lemma_top_configs(
    top: Seq<char>,
    bottoms: Seq<Seq<char>>,
    factors: Seq<u64>,
    count: nat,
    b: int,
    f: int,
)
    requires
        0 <= b < count,
        0 <= f < factors.len(),
    ensures
        0 <= b * factors.len() + f < top_configs(top, bottoms, factors, count).len(),
        top_configs(top, bottoms, factors, count)[b * factors.len() + f] == (
            pair_name(top, bottoms[b]),
            factors[f],
        ),
    decreases count,
{
    let width = factors.len() as int;
    let before = top_configs(top, bottoms, factors, (count - 1) as nat);
    lemma_top_configs_len(top, bottoms, factors, count);
    lemma_top_configs_len(top, bottoms, factors, (count - 1) as nat);
    assert(0 <= b * width) by (nonlinear_arith)
        requires
            0 <= b,
            0 <= width,
    ;
    assert((count - 1) * width + width == count * width) by (nonlinear_arith);
    if b < count - 1 {
        lemma_top_configs(top, bottoms, factors, (count - 1) as nat, b, f);
    } else {
        assert(b * width + f - before.len() == f);
    }
}

/// A phase's configurations are as many as roots times leaves times
/// factors.
pub proof fn lemma_phase_configs_len(
    tops: Seq<Seq<char>>,
    bottoms: Seq<Seq<char>>,
    factors: Seq<u64>,
    count: nat,
)
    ensures
        phase_configs(tops, bottoms, factors, count).len() == count * (bottoms.len()
            * factors.len()),
    decreases count,
{
    let block = (bottoms.len() * factors.len()) as int;
    if count > 0 {
        let before = (count - 1) as nat;
        lemma_phase_configs_len(tops, bottoms, factors, before);
        lemma_top_configs_len(tops[count - 1], bottoms, factors, bottoms.len());
        assert(before * block + block == count * block) by (nonlinear_arith)
            requires
                before == count - 1,
        ;
    } else {
        assert(count * block == 0) by (nonlinear_arith)
            requires
                count == 0,
        ;
    }
}

/// In a phase the roots come in their order, under each root the leaves in
/// theirs, and under each leaf the factors in theirs: the configuration of
/// the root `t`, the leaf `b` and the factor `f` stands at the index
/// `(t * leaves + b) * factors + f`.
pub proof fn lemma_phase_configs(
    tops: Seq<Seq<char>>,
    bottoms: Seq<Seq<char>>,
    factors: Seq<u64>,
    count: nat,
    t: int,
    b: int,
    f: int,
)
    requires
        0 <= t < count,
        0 <= b < bottoms.len(),
        0 <= f < factors.len(),
    ensures
        0 <= (t * bottoms.len() + b) * factors.len() + f < phase_configs(
            tops,
            bottoms,
            factors,
            count,
        ).len(),
        phase_configs(tops, bottoms, factors, count)[(t * bottoms.len() + b) * factors.len() + f]
            == (pair_name(tops[t], bottoms[b]), factors[f]),
    decreases count,
{
    let width = factors.len() as int;
    let leaves = bottoms.len() as int;
    let block = leaves * width;
    let before = phase_configs(tops, bottoms, factors, (count - 1) as nat);
    lemma_phase_configs_len(tops, bottoms, factors, count);
    lemma_phase_configs_len(tops, bottoms, factors, (count - 1) as nat);
    lemma_top_configs(tops[count - 1], bottoms, factors, bottoms.len(), b, f);
    lemma_top_configs_len(tops[count - 1], bottoms, factors, bottoms.len());
    assert((t * leaves + b) * width + f == t * block + (b * width + f)) by (nonlinear_arith)
        requires
            block == leaves * width,
    ;
    assert(0 <= t * block) by (nonlinear_arith)
        requires
            0 <= t,
            0 <= block,
    ;
    assert((count - 1) * block + block == count * block) by (nonlinear_arith);
    if t < count - 1 {
        lemma_phase_configs(tops, bottoms, factors, (count - 1) as nat, t, b, f);
    } else {
        assert(t * block + (b * width + f) - before.len() == b * width + f);
    }
}

/// The first phase trains every root, those that may stand first only and
/// then those that may stand anywhere, with every leaf that may stand
/// anywhere, at every fifth branching factor, in that order, and nothing
/// else.
pub proof fn lemma_first_phase(profile: OptimizerProfile, t: int, b: int, f: int)
    requires
        0 <= t < top_only_spec(profile).len() + anywhere_spec(profile).len(),
        0 <= b < anywhere_spec(profile).len(),
        0 <= f < every_fifth(branching_factors_spec(profile)).len(),
    ensures
        first_phase_spec(profile).len() == (top_only_spec(profile).len() + anywhere_spec(
            profile,
        ).len()) * (anywhere_spec(profile).len() * every_fifth(
            branching_factors_spec(profile),
        ).len()),
        first_phase_spec(profile)[(t * anywhere_spec(profile).len() + b) * every_fifth(
            branching_factors_spec(profile),
        ).len() + f] == (
            pair_name(
                (top_only_spec(profile) + anywhere_spec(profile))[t],
                anywhere_spec(profile)[b],
            ),
            every_fifth(branching_factors_spec(profile))[f],
        ),
{
    let tops = top_only_spec(profile) + anywhere_spec(profile);
    let factors = every_fifth(branching_factors_spec(profile));
    lemma_phase_configs_len(tops, anywhere_spec(profile), factors, tops.len());
    lemma_phase_configs(tops, anywhere_spec(profile), factors, tops.len(), t, b, f);
}

fn sample_factors(factors: &Vec<u64>) -> (r: Vec<u64>)
    ensures
        r@ == every_fifth(factors@),
{
    let n: usize = factors.len();
    let count: usize = n / 5 + (if n % 5 == 0 {
        0
    } else {
        1
    });
    let mut r: Vec<u64> = Vec::new();
    let mut f: usize = 0;
    while f < count
        invariant
            f <= count,
            n == factors@.len(),
            count == (factors@.len() + 4) / 5,
            r@.len() == f,
            forall|k: int| 0 <= k < f ==> r@[k] == factors@[5 * k],
        decreases count - f,
    {
        assert(5 * f < factors@.len()) by {
            assert(f + 1 <= (factors@.len() + 4) / 5);
        }
        r.push(factors[5 * f]);
        f += 1;
    }
    assert(r@ =~= every_fifth(factors@));
    r
}

pub fn first_phase_configs(profile: OptimizerProfile) -> (results: Vec<(String, u64)>)
    ensures
        config_views(results@) == first_phase_spec(profile),
{
    let mut all_top_models = top_only_layers(profile);
    let anywhere = anywhere_layers(profile);
    let ghost top_only = all_top_models@;
    let mut a: usize = 0;
    while a < anywhere.len()
        invariant
            a <= anywhere@.len(),
            all_top_models@ == top_only + anywhere@.take(a as int),
        decreases anywhere@.len() - a,
    {
        all_top_models.push(anywhere[a]);
        proof {
            assert(anywhere@.take(a + 1) =~= anywhere@.take(a as int).push(anywhere@[a as int]));
            assert(top_only + anywhere@.take(a + 1) =~= (top_only + anywhere@.take(
                a as int,
            )).push(anywhere@[a as int]));
        }
        a += 1;
    }
    let factors = sample_factors(&get_branching_factors(profile));
    let ghost tops = strs(all_top_models@);
    let ghost bottoms = strs(anywhere@);
    proof {
        assert(anywhere@.take(anywhere@.len() as int) =~= anywhere@);
        assert(tops =~= top_only_spec(profile) + anywhere_spec(profile));
    }
    let mut results: Vec<(String, u64)> = Vec::new();
    let mut t: usize = 0;
    while t < all_top_models.len()
        invariant
            t <= all_top_models@.len(),
            tops == strs(all_top_models@),
            bottoms == strs(anywhere@),
            config_views(results@) == phase_configs(tops, bottoms, factors@, t as nat),
        decreases all_top_models@.len() - t,
    {
        let top_model = all_top_models[t];
        let ghost done = config_views(results@);
        let mut b: usize = 0;
        while b < anywhere.len()
            invariant
                b <= anywhere@.len(),
                bottoms == strs(anywhere@),
                top_model@ == tops[t as int],
                config_views(results@) == done + top_configs(
                    top_model@,
                    bottoms,
                    factors@,
                    b as nat,
                ),
            decreases anywhere@.len() - b,
        {
            let bottom_model = anywhere[b];
            let ghost before = config_views(results@);
            let mut f: usize = 0;
            while f < factors.len()
                invariant
                    f <= factors@.len(),
                    config_views(results@) == before + pair_configs(
                        top_model@,
                        bottom_model@,
                        factors@,
                    ).take(f as int),
                decreases factors@.len() - f,
            {
                let mut name = String::from_str(top_model);
                name.append(",");
                name.append(bottom_model);
                proof {
                    reveal_strlit(",");
                    assert(","@ =~= seq![',']);
                    let all = pair_configs(top_model@, bottom_model@, factors@);
                    assert(all.take(f + 1) =~= all.take(f as int).push(all[f as int]));
                    assert(config_views(results@.push((name, factors@[f as int])))
                        =~= config_views(results@).push((name@, factors@[f as int])));
                }
                results.push((name, factors[f]));
                f += 1;
            }
            proof {
                let all = pair_configs(top_model@, bottom_model@, factors@);
                assert(all.take(factors@.len() as int) =~= all);
                assert(bottoms[b as int] == bottom_model@);
                assert(done + top_configs(top_model@, bottoms, factors@, b as nat) + all =~= done
                    + top_configs(top_model@, bottoms, factors@, (b + 1) as nat));
            }
            b += 1;
        }
        proof {
            assert(bottoms.len() == anywhere@.len());
        }
        t += 1;
    }
    results
}

/// Whether one sequence of bytes comes before another in the order of a
/// dictionary.
pub open spec fn bytes_less(a: Seq<u8>, b: Seq<u8>) -> bool
    decreases a.len(),
{
    if b.len() == 0 {
        false
    } else if a.len() == 0 {
        true
    } else if a[0] != b[0] {
        a[0] < b[0]
    } else {
        bytes_less(a.drop_first(), b.drop_first())
    }
}

/// Whether one text comes before another: texts are ordered as their bytes
/// are.
pub open spec fn text_less(a: Seq<char>, b: Seq<char>) -> bool {
    bytes_less(encode_utf8(a), encode_utf8(b))
}

pub fn text_less_exec(a: &str, b: &str) -> (r: bool)
    ensures
        r == text_less(a@, b@),
{
    let x = a.as_bytes();
    let y = b.as_bytes();
    let mut i: usize = 0;
    proof {
        assert(x@.skip(0) =~= x@);
        assert(y@.skip(0) =~= y@);
    }
    while i < x.len() && i < y.len()
        invariant
            i <= x@.len(),
            i <= y@.len(),
            x@ == encode_utf8(a@),
            y@ == encode_utf8(b@),
            bytes_less(x@, y@) == bytes_less(x@.skip(i as int), y@.skip(i as int)),
        decreases x@.len() - i,
    {
        proof {
            assert(x@.skip(i as int)[0] == x@[i as int]);
            assert(y@.skip(i as int)[0] == y@[i as int]);
            assert(x@.skip(i as int).drop_first() =~= x@.skip(i + 1));
            assert(y@.skip(i as int).drop_first() =~= y@.skip(i + 1));
        }
        if x[i] != y[i] {
            return x[i] < y[i];
        }
        i += 1;
    }
    i < y.len()
}

/// The sorted names with `x` among them, if it was not.
pub open spec fn insert_name(names: Seq<Seq<char>>, x: Seq<char>) -> Seq<Seq<char>>
    decreases names.len(),
{
    if names.len() == 0 {
        seq![x]
    } else if names.last() == x {
        names
    } else if text_less(names.last(), x) {
        names.push(x)
    } else {
        insert_name(names.drop_last(), x).push(names.last())
    }
}

/// The layer lists of the results, each once, in the order of a
/// dictionary.
pub open spec fn distinct_names(results: Seq<Stats>) -> Seq<Seq<char>>
    decreases results.len(),
{
    if results.len() == 0 {
        Seq::empty()
    } else {
        insert_name(distinct_names(results.drop_last()), results.last().models)
    }
}

/// Some result of the first phase has this configuration.
pub open spec fn tried(first: Seq<Stats>, model: Seq<char>, bf: u64) -> bool {
    exists|j: int| 0 <= j < first.len() && #[trigger] first[j].has_config(model, bf)
}

/// The model with those of the first `count` factors that the first phase
/// did not try it with.
pub open spec fn untried_factors(
    first: Seq<Stats>,
    model: Seq<char>,
    factors: Seq<u64>,
    count: nat,
) -> Seq<(Seq<char>, u64)>
    decreases count,
{
    if count == 0 {
        Seq::empty()
    } else {
        let head = untried_factors(first, model, factors, (count - 1) as nat);
        if tried(first, model, factors[count - 1]) {
            head
        } else {
            head.push((model, factors[count - 1]))
        }
    }
}

/// Each of the first `count` names with the factors that the first phase
/// did not try it with.
pub open spec fn untried_configs(
    first: Seq<Stats>,
    names: Seq<Seq<char>>,
    factors: Seq<u64>,
    count: nat,
) -> Seq<(Seq<char>, u64)>
    decreases count,
{
    if count == 0 {
        Seq::empty()
    } else {
        untried_configs(first, names, factors, (count - 1) as nat) + untried_factors(
            first,
            names[count - 1],
            factors,
            factors.len(),
        )
    }
}

/// The configurations of the second phase: each layer list on the frontier
/// of the first phase, at every branching factor that the first phase did
/// not try it at.
pub open spec fn second_phase_spec(first: Seq<Stats>, profile: OptimizerProfile) -> Seq<
    (Seq<char>, u64),
> {
    let names = distinct_names(pareto_front_spec(first));
    untried_configs(first, names, branching_factors_spec(profile), names.len())
}

proof fn lemma_insert_name_at(names: Seq<Seq<char>>, x: Seq<char>, j: int)
    requires
        0 <= j <= names.len(),
        forall|k: int| j <= k < names.len() ==> names[k] != x && !text_less(#[trigger] names[k], x),
        j > 0 ==> names[j - 1] == x || text_less(names[j - 1], x),
    ensures
        insert_name(names, x) == if j > 0 && names[j - 1] == x {
            names
        } else {
            names.insert(j, x)
        },
    decreases names.len(),
{
    if names.len() == 0 {
        assert(names.insert(j, x) =~= seq![x]);
    } else if j == names.len() {
        assert(names.insert(j, x) =~= names.push(x));
    } else {
        lemma_insert_name_at(names.drop_last(), x, j);
        assert(names.last() == names[names.len() - 1]);
        if j > 0 && names[j - 1] == x {
            assert(names.drop_last().push(names.last()) =~= names);
        } else {
            assert(names.insert(j, x) =~= names.drop_last().insert(j, x).push(names.last()));
        }
    }
}

/// Of two different texts one comes before the other.
pub proof fn lemma_bytes_either(a: Seq<u8>, b: Seq<u8>)
    requires
        a != b,
    ensures
        bytes_less(a, b) || bytes_less(b, a),
    decreases a.len(),
{
    if a.len() == 0 || b.len() == 0 {
        assert(a.len() == 0 && b.len() == 0 ==> a =~= b);
    } else if a[0] == b[0] {
        if a.drop_first() == b.drop_first() {
            assert(a =~= seq![a[0]] + a.drop_first());
            assert(b =~= seq![b[0]] + b.drop_first());
        }
        lemma_bytes_either(a.drop_first(), b.drop_first());
    }
}

/// A text that comes before a second, which comes before a third, comes
/// before the third.
pub proof fn lemma_text_less_chain(a: Seq<char>, b: Seq<char>, c: Seq<char>)
    requires
        text_less(a, b),
        text_less(b, c),
    ensures
        text_less(a, c),
{
    crate::optimizer::lemma_bytes_one_way(encode_utf8(b), encode_utf8(c));
    if !text_less(a, c) {
        crate::optimizer::lemma_bytes_chain(encode_utf8(a), encode_utf8(c), encode_utf8(b));
    }
}

/// Of two different texts one comes before the other.
pub proof fn lemma_text_either(a: Seq<char>, b: Seq<char>)
    requires
        a != b,
    ensures
        text_less(a, b) || text_less(b, a),
{
    vstd::utf8::encode_utf8_decode_utf8(a);
    vstd::utf8::encode_utf8_decode_utf8(b);
    lemma_bytes_either(encode_utf8(a), encode_utf8(b));
}

/// Each name comes before every name behind it: the names stand in their
/// order, and none stands twice.
pub open spec fn names_ascend(names: Seq<Seq<char>>) -> bool {
    forall|i: int, j: int|
        0 <= i < j < names.len() ==> text_less(#[trigger] names[i], #[trigger] names[j])
}

/// Putting a name in adds it where it is new, and takes none away.
pub proof fn lemma_insert_name_member(names: Seq<Seq<char>>, x: Seq<char>, y: Seq<char>)
    ensures
        insert_name(names, x).contains(y) <==> names.contains(y) || y == x,
    decreases names.len(),
{
    let out = insert_name(names, x);
    if names.len() == 0 {
        assert(out[0] == x);
    } else if names.last() == x {
        assert(names[names.len() - 1] == x);
    } else if text_less(names.last(), x) {
        assert(out[names.len() as int] == x);
        if out.contains(y) {
            let k = choose|k: int| 0 <= k < out.len() && out[k] == y;
            if k < names.len() {
                assert(names[k] == y);
            }
        }
        if names.contains(y) {
            let k = choose|k: int| 0 <= k < names.len() && names[k] == y;
            assert(out[k] == y);
        }
    } else {
        let head = names.drop_last();
        let inner = insert_name(head, x);
        lemma_insert_name_member(head, x, y);
        assert(out[inner.len() as int] == names.last());
        if out.contains(y) {
            let k = choose|k: int| 0 <= k < out.len() && out[k] == y;
            if k < inner.len() {
                assert(inner[k] == y);
                if head.contains(y) {
                    let h = choose|h: int| 0 <= h < head.len() && head[h] == y;
                    assert(names[h] == y);
                }
            } else {
                assert(names[names.len() - 1] == y);
            }
        }
        if names.contains(y) {
            let k = choose|k: int| 0 <= k < names.len() && names[k] == y;
            if k < head.len() {
                assert(head[k] == y);
                let h = choose|h: int| 0 <= h < inner.len() && inner[h] == y;
                assert(out[h] == y);
            }
        }
        if y == x {
            let h = choose|h: int| 0 <= h < inner.len() && inner[h] == y;
            assert(out[h] == y);
        }
    }
}

/// Putting a name in keeps the names in their order.
pub proof fn lemma_insert_name_ascends(names: Seq<Seq<char>>, x: Seq<char>)
    requires
        names_ascend(names),
    ensures
        names_ascend(insert_name(names, x)),
    decreases names.len(),
{
    let out = insert_name(names, x);
    if names.len() == 0 {
    } else if names.last() == x {
    } else if text_less(names.last(), x) {
        assert forall|i: int, j: int| 0 <= i < j < out.len() implies text_less(
            #[trigger] out[i],
            #[trigger] out[j],
        ) by {
            if j == names.len() {
                if i < names.len() - 1 {
                    assert(text_less(names[i], names[names.len() - 1]));
                    lemma_text_less_chain(names[i], names.last(), x);
                }
            } else {
                assert(text_less(names[i], names[j]));
            }
        }
    } else {
        let head = names.drop_last();
        let inner = insert_name(head, x);
        let last = names.last();
        assert forall|i: int, j: int| 0 <= i < j < head.len() implies text_less(
            #[trigger] head[i],
            #[trigger] head[j],
        ) by {
            assert(text_less(names[i], names[j]));
        }
        lemma_insert_name_ascends(head, x);
        lemma_text_either(last, x);
        assert forall|i: int, j: int| 0 <= i < j < out.len() implies text_less(
            #[trigger] out[i],
            #[trigger] out[j],
        ) by {
            if j == inner.len() {
                lemma_insert_name_member(head, x, inner[i]);
                assert(inner.contains(inner[i]));
                if inner[i] != x {
                    let h = choose|h: int| 0 <= h < head.len() && head[h] == inner[i];
                    assert(text_less(names[h], names[names.len() - 1]));
                }
            } else {
                assert(text_less(inner[i], inner[j]));
            }
        }
    }
}

/// Whether some member of the results has the layer list `name`.
pub open spec fn has_name(results: Seq<Stats>, name: Seq<char>) -> bool {
    exists|i: int| 0 <= i < results.len() && (#[trigger] results[i]).models == name
}

/// The names of the results are the layer lists of their members, each
/// once, in the order of texts.
pub proof fn lemma_distinct_names(results: Seq<Stats>, name: Seq<char>)
    ensures
        names_ascend(distinct_names(results)),
        distinct_names(results).contains(name) <==> has_name(results, name),
    decreases results.len(),
{
    if results.len() > 0 {
        let head = results.drop_last();
        lemma_distinct_names(head, name);
        lemma_insert_name_ascends(distinct_names(head), results.last().models);
        lemma_insert_name_member(distinct_names(head), results.last().models, name);
        if has_name(results, name) {
            let i = choose|i: int| 0 <= i < results.len() && (#[trigger] results[i]).models == name;
            if i < head.len() {
                assert(head[i].models == name);
            }
        }
        if has_name(head, name) {
            let i = choose|i: int| 0 <= i < head.len() && (#[trigger] head[i]).models == name;
            assert(results[i].models == name);
        }
        if name == results.last().models {
            assert(results[results.len() - 1].models == name);
        }
    }
}

/// The untried factors of a model are its pairs with the factors that the
/// first phase did not train it with.
pub proof fn lemma_untried_factors(
    first: Seq<Stats>,
    model: Seq<char>,
    factors: Seq<u64>,
    count: nat,
    config: (Seq<char>, u64),
)
    requires
        count <= factors.len(),
    ensures
        untried_factors(first, model, factors, count).contains(config) <==> config.0 == model
            && factors.take(count as int).contains(config.1) && !tried(first, model, config.1),
    decreases count,
{
    let out = untried_factors(first, model, factors, count);
    if count > 0 {
        let before = (count - 1) as nat;
        let head = untried_factors(first, model, factors, before);
        let f = factors[count - 1];
        lemma_untried_factors(first, model, factors, before, config);
        let taken = factors.take(count as int);
        let fewer = factors.take(before as int);
        assert(taken[count - 1] == f);
        if fewer.contains(config.1) {
            let k = choose|k: int| 0 <= k < fewer.len() && fewer[k] == config.1;
            assert(taken[k] == config.1);
        }
        if taken.contains(config.1) {
            let k = choose|k: int| 0 <= k < taken.len() && taken[k] == config.1;
            if k < before {
                assert(fewer[k] == config.1);
            }
        }
        if !tried(first, model, f) {
            assert(out[head.len() as int] == (model, f));
            if out.contains(config) {
                let k = choose|k: int| 0 <= k < out.len() && out[k] == config;
                if k < head.len() {
                    assert(head[k] == config);
                }
            }
            if head.contains(config) {
                let k = choose|k: int| 0 <= k < head.len() && head[k] == config;
                assert(out[k] == config);
            }
        }
    }
}

/// The untried configurations of the first `count` names are the untried
/// factors of each.
pub proof fn lemma_untried_configs(
    first: Seq<Stats>,
    names: Seq<Seq<char>>,
    factors: Seq<u64>,
    count: nat,
    config: (Seq<char>, u64),
)
    requires
        count <= names.len(),
    ensures
        untried_configs(first, names, factors, count).contains(config) <==> names.take(
            count as int,
        ).contains(config.0) && factors.contains(config.1) && !tried(first, config.0, config.1),
    decreases count,
{
    let out = untried_configs(first, names, factors, count);
    if count > 0 {
        let before = (count - 1) as nat;
        let head = untried_configs(first, names, factors, before);
        let block = untried_factors(first, names[count - 1], factors, factors.len());
        lemma_untried_configs(first, names, factors, before, config);
        lemma_untried_factors(first, names[count - 1], factors, factors.len(), config);
        assert(factors.take(factors.len() as int) =~= factors);
        let taken = names.take(count as int);
        let fewer = names.take(before as int);
        assert(taken[count - 1] == names[count - 1]);
        if fewer.contains(config.0) {
            let k = choose|k: int| 0 <= k < fewer.len() && fewer[k] == config.0;
            assert(taken[k] == config.0);
        }
        if taken.contains(config.0) {
            let k = choose|k: int| 0 <= k < taken.len() && taken[k] == config.0;
            if k < before {
                assert(fewer[k] == config.0);
            }
        }
        if out.contains(config) {
            let k = choose|k: int| 0 <= k < out.len() && out[k] == config;
            if k < head.len() {
                assert(head[k] == config);
            } else {
                assert(block[k - head.len()] == config);
            }
        }
        if head.contains(config) {
            let k = choose|k: int| 0 <= k < head.len() && head[k] == config;
            assert(out[k] == config);
        }
        if block.contains(config) {
            let k = choose|k: int| 0 <= k < block.len() && block[k] == config;
            assert(out[head.len() + k] == config);
        }
    }
}

/// The second phase trains every layer list on the frontier of the first
/// phase at every branching factor that the first phase did not train it
/// at, and nothing else.
pub proof fn lemma_second_phase(first: Seq<Stats>, profile: OptimizerProfile, config: (Seq<char>, u64))
    ensures
        second_phase_spec(first, profile).contains(config) <==> has_name(
            pareto_front_spec(first),
            config.0,
        ) && branching_factors_spec(profile).contains(config.1) && !tried(
            first,
            config.0,
            config.1,
        ),
{
    let names = distinct_names(pareto_front_spec(first));
    let factors = branching_factors_spec(profile);
    lemma_distinct_names(pareto_front_spec(first), config.0);
    lemma_untried_configs(first, names, factors, names.len(), config);
    assert(names.take(names.len() as int) =~= names);
}

fn insert_name_exec(names: &mut Vec<String>, x: &str)
    ensures
        texts(final(names)@) == insert_name(texts(old(names)@), x@),
{
    let ghost t = texts(names@);
    let mut j: usize = names.len();
    while j > 0 && !str_equal(names[j - 1].as_str(), x) && !text_less_exec(
        names[j - 1].as_str(),
        x,
    )
        invariant
            j <= names@.len(),
            t == texts(names@),
            forall|k: int| j <= k < t.len() ==> t[k] != x@ && !text_less(#[trigger] t[k], x@),
        decreases j,
    {
        assert(t[j - 1] == names@[j - 1]@);
        j -= 1;
    }
    proof {
        if j > 0 {
            assert(t[j - 1] == names@[j - 1]@);
        }
        lemma_insert_name_at(t, x@, j as int);
    }
    if j > 0 && str_equal(names[j - 1].as_str(), x) {
        return ;
    }
    let owned = String::from_str(x);
    names.insert(j, owned);
    proof {
        assert(texts(names@) =~= t.insert(j as int, x@));
    }
}

fn tried_exec(first_phase: &[RMIStatistics], model: &str, bf: u64) -> (r: bool)
    ensures
        r == tried(stat_views(first_phase@), model@, bf),
{
    let ghost first = stat_views(first_phase@);
    let mut j: usize = 0;
    while j < first_phase.len()
        invariant
            j <= first_phase@.len(),
            first == stat_views(first_phase@),
            forall|k: int| 0 <= k < j ==> !#[trigger] first[k].has_config(model@, bf),
        decreases first_phase@.len() - j,
    {
        assert(first[j as int] == first_phase@[j as int]@);
        if first_phase[j].has_config(model, bf) {
            return true;
        }
        j += 1;
    }
    false
}

pub fn second_phase_configs(first_phase: &[RMIStatistics], profile: OptimizerProfile) -> (results:
    Vec<(String, u64)>)
    ensures
        config_views(results@) == second_phase_spec(stat_views(first_phase@), profile),
{
    let ghost first = stat_views(first_phase@);
    let on_front = pareto_front(first_phase);
    let ghost front = stat_views(on_front@);
    let mut qualifying: Vec<String> = Vec::new();
    let mut i: usize = 0;
    proof {
        assert(front.take(0) =~= Seq::empty());
        assert(texts(qualifying@) =~= Seq::empty());
    }
    while i < on_front.len()
        invariant
            i <= on_front@.len(),
            front == stat_views(on_front@),
            texts(qualifying@) == distinct_names(front.take(i as int)),
        decreases on_front@.len() - i,
    {
        proof {
            let head = front.take(i + 1);
            assert(head.drop_last() =~= front.take(i as int));
            assert(head.last() == on_front@[i as int]@);
        }
        insert_name_exec(&mut qualifying, on_front[i].models.as_str());
        i += 1;
    }
    proof {
        assert(front.take(on_front@.len() as int) =~= front);
    }
    let factors = get_branching_factors(profile);
    let ghost names = texts(qualifying@);
    let mut results: Vec<(String, u64)> = Vec::new();
    let mut m: usize = 0;
    while m < qualifying.len()
        invariant
            m <= qualifying@.len(),
            names == texts(qualifying@),
            first == stat_views(first_phase@),
            config_views(results@) == untried_configs(first, names, factors@, m as nat),
        decreases qualifying@.len() - m,
    {
        let ghost done = config_views(results@);
        let ghost model = names[m as int];
        assert(model == qualifying@[m as int]@);
        let mut f: usize = 0;
        while f < factors.len()
            invariant
                f <= factors@.len(),
                m < qualifying@.len(),
                model == qualifying@[m as int]@,
                first == stat_views(first_phase@),
                config_views(results@) == done + untried_factors(first, model, factors@, f as nat),
            decreases factors@.len() - f,
        {
            if !tried_exec(first_phase, qualifying[m].as_str(), factors[f]) {
                let name = qualifying[m].clone();
                proof {
                    assert(config_views(results@.push((name, factors@[f as int])))
                        =~= config_views(results@).push((name@, factors@[f as int])));
                    let head = untried_factors(first, model, factors@, f as nat);
                    assert(done + head.push((model, factors@[f as int])) =~= (done + head).push(
                        (model, factors@[f as int]),
                    ));
                }
                results.push((name, factors[f]));
            }
            f += 1;
        }
        m += 1;
    }
    results
}

} // verus!
