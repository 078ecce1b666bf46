//! Training an index from a layer list and a branching factor.
use vstd::prelude::*;
use crate::data::RMITrainingData;
use crate::fit::{fit, fit_exec};
use crate::cache_fix::{cache_fix, is_sorted, radius_of, sorted, spline_of};
use crate::clock::{elapsed_since, now};
use crate::data::KeyType;
use crate::layers::{
    join_commas, lemma_join_split, split_commas, split_layers, texts, valid_layers,
};
use crate::lookup::index_wf;
use crate::codegen::layers_size;
use crate::multi_layer::{train_multi_layer, trainer_gives, trainer_outcome};
use crate::optimizer::profile::OptimizerProfile;
use crate::optimizer::search::{
    find_pareto_efficient_configs, lemma_plan_has_layers, lemma_search, lemma_stats_of_plan,
    search_spec, stats_of, was_measured,
};
use crate::optimizer::{stat_views, Stats};
use crate::plan::{Plan, TrainMode};
pub use crate::rmi::TrainedRMI;
use crate::two_layer::{
    train_naive_three_layer, train_partial_three_layer, train_three_layer, train_two_layer,
};
use crate::models::{FormView, Model, ModelKind, ModelRestriction};
use crate::text::str_equal;

verus! {

/// Why no index came back.
#[derive(Clone, Copy, Debug, PartialEq, Eq, Structural)]
pub enum TrainError {
    /// A name that calls no model, a root-only model below the root, or a
    /// leaf-only model above the leaves.
    BadSpec,
    /// A bounded index was asked for on keys that are not 64-bit integers.
    UnsupportedKind,
    /// No configuration on the frontier is smaller than the budget.
    NoConfigFits,
    /// A branching factor of zero, or one so large that the slots of a
    /// layer cannot be counted in 64 bits.
    BadBranchingFactor,
    /// A model sent a later key to an earlier child than the key before it.
    NotMonotone,
    /// A bounded index was asked for with a line of no positions.
    BadLineSize,
    /// A bounded index was asked for on keys that do not stand in
    /// ascending order.
    UnsortedKeys,
}

/// The positions of the data's pairs.
pub open spec fn positions_of(pairs: Seq<(u64, usize)>) -> Seq<u64> {
    Seq::new(pairs.len(), |i: int| pairs[i].1 as u64)
}

/// The keys of the data's pairs.
pub open spec fn keys_of(pairs: Seq<(u64, usize)>) -> Seq<u64> {
    Seq::new(pairs.len(), |i: int| pairs[i].0)
}

/// The positions of the data's pairs, in order.
pub fn positions(data: &RMITrainingData) -> (ys: Vec<u64>)
    ensures
        ys@ == positions_of(data@),
{
    let n: usize = data.len();
    let mut ys: Vec<u64> = Vec::new();
    let mut i: usize = 0;
    while i < n
        invariant
            i <= n,
            n == data@.len(),
            ys@.len() == i,
            forall|j: int| 0 <= j < i ==> ys@[j] == data@[j].1 as u64,
        decreases n - i,
    {
        match data.get(i) {
            Some(pair) => {
                ys.push(pair.1 as u64);
            },
            None => {
                assert(false);
            },
        }
        i += 1;
    }
    assert(ys@ =~= positions_of(data@));
    ys
}

/// What `train_model` gives for a name and data: the fit of the kind that
/// the name calls, to all the pairs.
pub open spec fn train_model_spec(model_type: Seq<char>, pairs: Seq<(u64, usize)>) -> Result<
    (ModelKind, FormView),
    TrainError,
> {
    match ModelKind::named(model_type) {
        None => Err(TrainError::BadSpec),
        Some(kind) => Ok(
            (kind, fit(kind, keys_of(pairs), positions_of(pairs), 0, pairs.len() as int)),
        ),
    }
}

/// Every kind trains under its own name, on any data: the model is of
/// that kind, and its place in a layer list is the kind's.
pub proof fn lemma_every_name_trains(kind: ModelKind, pairs: Seq<(u64, usize)>)
    ensures
        train_model_spec(kind.name_spec(), pairs) == Ok::<(ModelKind, FormView), TrainError>(
            (kind, fit(kind, keys_of(pairs), positions_of(pairs), 0, pairs.len() as int)),
        ),
{
    crate::models::lemma_names_round_trip(kind);
}

/// Fits the model that `model_type` names to all the data.
pub fn train_model(model_type: &str, data: &RMITrainingData) -> (r: Result<Model, TrainError>)
    ensures
        match (r, train_model_spec(model_type@, data@)) {
            (Ok(m), Ok((kind, form))) => m.kind == kind && m.form@ == form && form.wf(),
            (Err(e), Err(want)) => e == want,
            _ => false,
        },
{
    let kind = match ModelKind::from_name(model_type) {
        Some(kind) => kind,
        None => {
            return Err(TrainError::BadSpec);
        },
    };
    let xs = data.to_keys();
    let ys = positions(data);
    assert(xs@ =~= keys_of(data@));
    Ok(Model { kind, form: fit_exec(kind, &xs, &ys, 0, xs.len()) })
}

/// What `train_model_big` gives: for the name `linear`, the least-squares
/// line with the keys measured as coarsely as 128-bit sums need; for every
/// other name, `BadSpec`.
pub open spec fn train_model_big_spec(model_type: Seq<char>, pairs: Seq<(u64, usize)>) -> Result<
    (ModelKind, FormView),
    TrainError,
> {
    if model_type == "linear"@ {
        Ok(
            (
                ModelKind::LinearBig,
                fit(ModelKind::LinearBig, keys_of(pairs), positions_of(pairs), 0, pairs.len() as int),
            ),
        )
    } else {
        Err(TrainError::BadSpec)
    }
}

/// Fits the wide-range variant of the model that `model_type` names.
pub fn train_model_big(model_type: &str, data: &RMITrainingData) -> (r: Result<Model, TrainError>)
    ensures
        match (r, train_model_big_spec(model_type@, data@)) {
            (Ok(m), Ok((kind, form))) => m.kind == kind && m.form@ == form && form.wf(),
            (Err(e), Err(want)) => e == want,
            _ => false,
        },
        r is Ok <==> model_type@ == "linear"@,
{
    if !str_equal(model_type, "linear") {
        return Err(TrainError::BadSpec);
    }
    let xs = data.to_keys();
    let ys = positions(data);
    assert(xs@ =~= keys_of(data@));
    Ok(Model { kind: ModelKind::LinearBig, form: fit_exec(ModelKind::LinearBig, &xs, &ys, 0, xs.len()) })
}

/// Checks a layer list: every name must call a model, a root-only model
/// must stand first and a leaf-only model last.
pub fn validate(model_spec: &[String]) -> (r: Result<(), TrainError>)
    ensures
        r is Ok <==> valid_layers(texts(model_spec@)),
        r is Err ==> r == Err::<(), TrainError>(TrainError::BadSpec),
{
    let num_layers: usize = model_spec.len();
    let ghost names = texts(model_spec@);
    let mut idx: usize = 0;
    while idx < num_layers
        invariant
            idx <= num_layers,
            num_layers == model_spec@.len(),
            names == texts(model_spec@),
            forall|i: int|
                0 <= i < idx ==> match #[trigger] ModelKind::named(names[i]) {
                    None => false,
                    Some(kind) => match kind.restriction_spec() {
                        ModelRestriction::Unrestricted => true,
                        ModelRestriction::RootOnly => i == 0,
                        ModelRestriction::LeafOnly => i == names.len() - 1,
                    },
                },
        decreases num_layers - idx,
    {
        assert(names[idx as int] == model_spec@[idx as int]@);
        let kind = match ModelKind::from_name(model_spec[idx].as_str()) {
            Some(kind) => kind,
            None => {
                return Err(TrainError::BadSpec);
            },
        };
        match kind.restriction() {
            ModelRestriction::Unrestricted => {},
            ModelRestriction::RootOnly => {
                if idx != 0 {
                    return Err(TrainError::BadSpec);
                }
            },
            ModelRestriction::LeafOnly => {
                if idx != num_layers - 1 {
                    return Err(TrainError::BadSpec);
                }
            },
        }
        idx += 1;
    }
    Ok(())
}

/// What `train` gives for a layer list: `BadSpec` where the list is not
/// valid, else what the trainer gives for its names.
pub open spec fn train_outcome(pairs: Seq<(u64, usize)>, model_spec: Seq<char>, b: u64) -> Result<
    Plan,
    TrainError,
> {
    if !valid_layers(split_commas(model_spec)) {
        Err(TrainError::BadSpec)
    } else {
        trainer_outcome(pairs, split_commas(model_spec), b, TrainMode::Bucketed)
    }
}

/// Trains the index that the layer list and the branching factor describe.
///
/// A list of two names goes to the two-layer trainer, one of three to the
/// three-layer trainer, any other to the general one. The time that the
/// training took is set down in `build_time`.
pub fn train(data: &RMITrainingData, model_spec: &str, branch_factor: u64) -> (r: Result<
    TrainedRMI,
    TrainError,
>)
    ensures
        match (r, train_outcome(data@, model_spec@, branch_factor)) {
            (Ok(rmi), Ok(plan)) => {
                &&& rmi.trained_by(plan)
                &&& index_wf(rmi)
                &&& rmi.models@ == model_spec@
                &&& rmi.cache_fix is None
            },
            (Err(e), Err(want)) => e == want,
            _ => false,
        },
{
    let start_time = now();
    let mut all_models = split_layers(model_spec);
    let ghost names = texts(all_models@);
    if validate(all_models.as_slice()).is_err() {
        return Err(TrainError::BadSpec);
    }
    proof {
        lemma_join_split(model_spec@);
    }
    let last_model = all_models.pop().unwrap();
    let model_list = all_models;
    assert(texts(model_list@).push(last_model@) =~= names);
    let trained = if model_list.len() == 1 {
        assert(names =~= seq![model_list@[0]@, last_model@]);
        train_two_layer(data, model_list[0].as_str(), last_model.as_str(), branch_factor)
    } else if model_list.len() == 2 {
        assert(names =~= seq![model_list@[0]@, model_list@[1]@, last_model@]);
        train_partial_three_layer(
            data,
            model_list[0].as_str(),
            model_list[1].as_str(),
            last_model.as_str(),
            branch_factor,
        )
    } else {
        train_multi_layer(data, &model_list, last_model, branch_factor)
    };
    match trained {
        Ok(mut res) => {
            res.build_time = elapsed_since(&start_time);
            Ok(res)
        },
        Err(e) => Err(e),
    }
}

/// The indexes that the five trainers build from one layer list.
pub struct ValidationResults {
    pub multi_layer: TrainedRMI,
    /// From the first name and the last, where the list has two names or
    /// more.
    pub two_layer: Option<TrainedRMI>,
    /// From the first two names and the last, where the list has three
    /// names or more; so the two after it.
    pub three_layer: Option<TrainedRMI>,
    pub naive_three_layer: Option<TrainedRMI>,
    pub partial_three_layer: Option<TrainedRMI>,
}

/// The first error among the trainers that `driver_validation` runs, in
/// the order in which it runs them.
pub open spec fn validation_error(pairs: Seq<(u64, usize)>, names: Seq<Seq<char>>, b: u64) -> Option<
    TrainError,
> {
    let two = seq![names[0], names.last()];
    let three = seq![names[0], names[1], names.last()];
    if !valid_layers(names) {
        Some(TrainError::BadSpec)
    } else if trainer_outcome(pairs, names, b, TrainMode::Bucketed) is Err {
        Some(trainer_outcome(pairs, names, b, TrainMode::Bucketed)->Err_0)
    } else if names.len() < 2 {
        None
    } else if trainer_outcome(pairs, two, b, TrainMode::Bucketed) is Err {
        Some(trainer_outcome(pairs, two, b, TrainMode::Bucketed)->Err_0)
    } else if names.len() < 3 {
        None
    } else if trainer_outcome(pairs, three, b, TrainMode::RootTargets) is Err {
        Some(trainer_outcome(pairs, three, b, TrainMode::RootTargets)->Err_0)
    } else if trainer_outcome(pairs, three, b, TrainMode::Unbucketed) is Err {
        Some(trainer_outcome(pairs, three, b, TrainMode::Unbucketed)->Err_0)
    } else if trainer_outcome(pairs, three, b, TrainMode::Bucketed) is Err {
        Some(trainer_outcome(pairs, three, b, TrainMode::Bucketed)->Err_0)
    } else {
        None
    }
}

/// The index is what a trainer gives for the names under the mode: the
/// index of the plan, well formed, with the names as its layer list and
/// without a spline. Nothing is said of its build time.
pub open spec fn variant_gives(
    rmi: TrainedRMI,
    pairs: Seq<(u64, usize)>,
    names: Seq<Seq<char>>,
    b: u64,
    mode: TrainMode,
) -> bool {
    &&& trainer_outcome(pairs, names, b, mode) matches Ok(plan) && rmi.trained_by(plan)
    &&& index_wf(rmi)
    &&& rmi.models@ == join_commas(names)
    &&& rmi.cache_fix is None
}

/// The results are what the five trainers give for the layer list: the
/// general trainer for the whole list, the two-layer trainer for its first
/// name and its last, and the three trainers of three layers for its first
/// two names and its last.
pub open spec fn validation_gives(
    v: ValidationResults,
    pairs: Seq<(u64, usize)>,
    names: Seq<Seq<char>>,
    b: u64,
) -> bool {
    let two = seq![names[0], names.last()];
    let three = seq![names[0], names[1], names.last()];
    &&& variant_gives(v.multi_layer, pairs, names, b, TrainMode::Bucketed)
    &&& v.two_layer is Some <==> names.len() >= 2
    &&& v.two_layer matches Some(rmi) ==> variant_gives(rmi, pairs, two, b, TrainMode::Bucketed)
    &&& v.three_layer is Some <==> names.len() >= 3
    &&& v.three_layer matches Some(rmi) ==> variant_gives(
        rmi,
        pairs,
        three,
        b,
        TrainMode::RootTargets,
    )
    &&& v.naive_three_layer is Some <==> names.len() >= 3
    &&& v.naive_three_layer matches Some(rmi) ==> variant_gives(
        rmi,
        pairs,
        three,
        b,
        TrainMode::Unbucketed,
    )
    &&& v.partial_three_layer is Some <==> names.len() >= 3
    &&& v.partial_three_layer matches Some(rmi) ==> variant_gives(
        rmi,
        pairs,
        three,
        b,
        TrainMode::Bucketed,
    )
}

/// Sets down in a trainer's index the time that its training took, from
/// `start` until now.
fn timed(
    r: Result<TrainedRMI, TrainError>,
    start: &std::time::SystemTime,
    Ghost(pairs): Ghost<Seq<(u64, usize)>>,
    Ghost(names): Ghost<Seq<Seq<char>>>,
    Ghost(b): Ghost<u64>,
    Ghost(mode): Ghost<TrainMode>,
) -> (out: Result<TrainedRMI, TrainError>)
    requires
        trainer_gives(r, pairs, names, b, mode),
    ensures
        match out {
            Ok(rmi) => trainer_outcome(pairs, names, b, mode) is Ok && variant_gives(
                rmi,
                pairs,
                names,
                b,
                mode,
            ),
            Err(e) => trainer_outcome(pairs, names, b, mode) == Err::<Plan, TrainError>(e),
        },
{
    match r {
        Ok(rmi) => {
            let mut rmi = rmi;
            rmi.build_time = elapsed_since(start);
            Ok(rmi)
        },
        Err(e) => Err(e),
    }
}

/// Trains the layer list with each of the five trainers, side by side: the
/// general one on the whole list, the two-layer one on its first name and
/// its last, and the three trainers of three layers on its first two names
/// and its last. Each index holds the time that its own training took.
#[verifier::rlimit(50)]
pub fn driver_validation(data: &RMITrainingData, model_spec: &str, branch_factor: u64) -> (r:
    Result<ValidationResults, TrainError>)
    ensures
        match r {
            Ok(v) => validation_error(data@, split_commas(model_spec@), branch_factor) is None
                && validation_gives(v, data@, split_commas(model_spec@), branch_factor),
            Err(e) => validation_error(data@, split_commas(model_spec@), branch_factor) == Some(e),
        },
{
    let mut all_models = split_layers(model_spec);
    let ghost names = texts(all_models@);
    if validate(all_models.as_slice()).is_err() {
        return Err(TrainError::BadSpec);
    }
    let last_model = all_models.pop().unwrap();
    let model_list = all_models;
    assert(texts(model_list@).push(last_model@) =~= names);
    assert(names.last() == last_model@);
    let ghost two = seq![names[0], names.last()];
    let ghost three = seq![names[0], names[1], names.last()];
    let ghost pairs = data@;

    let start_time = now();
    let multi_layer = match timed(
        train_multi_layer(data, &model_list, last_model.clone(), branch_factor),
        &start_time,
        Ghost(pairs),
        Ghost(names),
        Ghost(branch_factor),
        Ghost(TrainMode::Bucketed),
    ) {
        Ok(res) => res,
        Err(e) => {
            return Err(e);
        },
    };

    let two_layer = if model_list.len() >= 1 {
        assert(names[0] == model_list@[0]@);
        let start_time = now();
        match timed(
            train_two_layer(data, model_list[0].as_str(), last_model.as_str(), branch_factor),
            &start_time,
            Ghost(pairs),
            Ghost(two),
            Ghost(branch_factor),
            Ghost(TrainMode::Bucketed),
        ) {
            Ok(res) => Some(res),
            Err(e) => {
                return Err(e);
            },
        }
    } else {
        None
    };

    let (three_layer, naive_three_layer, partial_three_layer) = if model_list.len() >= 2 {
        assert(names[0] == model_list@[0]@);
        assert(names[1] == model_list@[1]@);
        let start_time = now();
        let three_layer = match timed(
            train_three_layer(
                data,
                model_list[0].as_str(),
                model_list[1].as_str(),
                last_model.as_str(),
                branch_factor,
            ),
            &start_time,
            Ghost(pairs),
            Ghost(three),
            Ghost(branch_factor),
            Ghost(TrainMode::RootTargets),
        ) {
            Ok(res) => res,
            Err(e) => {
                return Err(e);
            },
        };

        let start_time = now();
        let naive = match timed(
            train_naive_three_layer(
                data,
                model_list[0].as_str(),
                model_list[1].as_str(),
                last_model.as_str(),
                branch_factor,
            ),
            &start_time,
            Ghost(pairs),
            Ghost(three),
            Ghost(branch_factor),
            Ghost(TrainMode::Unbucketed),
        ) {
            Ok(res) => res,
            Err(e) => {
                return Err(e);
            },
        };

        let start_time = now();
        let partial = match timed(
            train_partial_three_layer(
                data,
                model_list[0].as_str(),
                model_list[1].as_str(),
                last_model.as_str(),
                branch_factor,
            ),
            &start_time,
            Ghost(pairs),
            Ghost(three),
            Ghost(branch_factor),
            Ghost(TrainMode::Bucketed),
        ) {
            Ok(res) => res,
            Err(e) => {
                return Err(e);
            },
        };
        (Some(three_layer), Some(naive), Some(partial))
    } else {
        (None, None, None)
    };

    Ok(
        ValidationResults {
            multi_layer,
            two_layer,
            three_layer,
            naive_three_layer,
            partial_three_layer,
        },
    )
}

/// The first member from index `from` on that is smaller than `max_size`.
pub open spec fn first_fitting(front: Seq<Stats>, max_size: u64, from: nat) -> Option<Stats>
    decreases front.len() - from,
{
    if from >= front.len() {
        None
    } else if front[from as int].size < max_size {
        Some(front[from as int])
    } else {
        first_fitting(front, max_size, from + 1)
    }
}

/// The number of members that the search for a size keeps of the frontier.
pub const SIZE_SEARCH_KEEPS: usize = 1000;

/// Trains the most accurate index that the search finds below `max_size`
/// bytes: the frontier comes in the order of accuracy, and its first member
/// that is small enough is trained.
pub fn train_for_size(data: &RMITrainingData, max_size: usize, profile: OptimizerProfile) -> (r:
    Result<TrainedRMI, TrainError>)
    ensures
        match first_fitting(
            search_spec(data@, SIZE_SEARCH_KEEPS as nat, profile),
            max_size as u64,
            0,
        ) {
            None => r == Err::<TrainedRMI, TrainError>(TrainError::NoConfigFits),
            Some(config) => {
                &&& r matches Ok(rmi)
                &&& train_outcome(data@, config.models, config.branching_factor) matches Ok(plan)
                &&& rmi.trained_by(plan)
                &&& index_wf(rmi)
                &&& rmi.models@ == config.models
                &&& rmi.cache_fix is None
                &&& stats_of(rmi) == config
                &&& stats_of(rmi).size < max_size
            },
        },
{
    let start_time = now();
    let pareto = find_pareto_efficient_configs(data, SIZE_SEARCH_KEEPS, profile);
    let ghost front = stat_views(pareto@);
    proof {
        lemma_search(data@, SIZE_SEARCH_KEEPS as nat, profile);
    }
    let mut i: usize = 0;
    while i < pareto.len() && pareto[i].size >= max_size as u64
        invariant
            i <= pareto@.len(),
            front == stat_views(pareto@),
            first_fitting(front, max_size as u64, 0) == first_fitting(
                front,
                max_size as u64,
                i as nat,
            ),
        decreases pareto@.len() - i,
    {
        assert(front[i as int] == pareto@[i as int]@);
        i += 1;
    }
    if i >= pareto.len() {
        return Err(TrainError::NoConfigFits);
    }
    assert(front[i as int] == pareto@[i as int]@);
    let config = &pareto[i];
    assert(was_measured(front[i as int], data@));
    match train(data, config.models.as_str(), config.branching_factor) {
        Ok(mut res) => {
            proof {
                let plan = train_outcome(data@, config@.models, config@.branching_factor)->Ok_0;
                lemma_plan_has_layers(data@, config@.models, config@.branching_factor);
                lemma_stats_of_plan(res, plan);
            }
            res.build_time = elapsed_since(&start_time);
            Ok(res)
        },
        Err(e) => {
            assert(false);
            Err(e)
        },
    }
}

/// The anchors of a spline as training pairs: each key with its index among
/// the anchors.
pub open spec fn anchor_pairs(spline: Seq<(u64, usize)>) -> Seq<(u64, usize)> {
    Seq::new(spline.len(), |j: int| (spline[j].0, j as usize))
}

/// What `train_bounded` gives: `UnsupportedKind` for keys that are not
/// 64-bit integers, `BadLineSize` for a line of no positions,
/// `UnsortedKeys` for keys out of order, else what `train` gives on the
/// anchors of the spline.
pub open spec fn bounded_outcome(
    kind: KeyType,
    keys: Seq<u64>,
    model_spec: Seq<char>,
    b: u64,
    line_size: usize,
) -> Result<Plan, TrainError> {
    if kind != KeyType::U64 {
        Err(TrainError::UnsupportedKind)
    } else if line_size == 0 {
        Err(TrainError::BadLineSize)
    } else if !sorted(keys) {
        Err(TrainError::UnsortedKeys)
    } else {
        train_outcome(
            anchor_pairs(spline_of(keys, radius_of(line_size) as int)),
            model_spec,
            b,
        )
    }
}

/// Trains an index whose lookups stay within one line of `line_size`
/// positions: the keys are replaced by the anchors of their spline, the
/// index is trained on the anchors, and the spline is kept with it. The
/// index counts the rows of the data, not the anchors, as its data rows.
pub fn train_bounded(
    data: &RMITrainingData,
    model_spec: &str,
    branch_factor: u64,
    line_size: usize,
) -> (r: Result<TrainedRMI, TrainError>)
    ensures
        match (
            r,
            bounded_outcome(data.kind(), data.keys_spec(), model_spec@, branch_factor, line_size),
        ) {
            (Ok(rmi), Ok(plan)) => {
                &&& rmi.built_by(plan)
                &&& index_wf(rmi)
                &&& rmi.num_data_rows == data@.len()
                &&& rmi.models@ == model_spec@
                &&& rmi.cache_fix matches Some(fix) && fix.0 == line_size && fix.1@ == spline_of(
                    data.keys_spec(),
                    radius_of(line_size) as int,
                )
            },
            (Err(e), Err(want)) => e == want,
            _ => false,
        },
{
    let start_time = now();
    match data.key_type() {
        KeyType::U64 => {},
        _ => {
            return Err(TrainError::UnsupportedKind);
        },
    }
    if line_size == 0 {
        return Err(TrainError::BadLineSize);
    }
    let keys = data.to_keys();
    if !is_sorted(&keys) {
        return Err(TrainError::UnsortedKeys);
    }
    let spline = cache_fix(data, line_size);
    let num_rows: usize = data.len();

    let mut anchor_keys: Vec<u64> = Vec::new();
    let mut idx: usize = 0;
    while idx < spline.len()
        invariant
            idx <= spline@.len(),
            anchor_keys@.len() == idx,
            forall|j: int| 0 <= j < idx ==> anchor_keys@[j] == spline@[j].0,
        decreases spline@.len() - idx,
    {
        anchor_keys.push(spline[idx].0);
        idx += 1;
    }
    let new_data = RMITrainingData::new(anchor_keys);
    assert(new_data@ =~= anchor_pairs(spline@));

    match train(&new_data, model_spec, branch_factor) {
        Ok(mut res) => {
            res.cache_fix = Some((line_size, spline));
            res.num_data_rows = num_rows;
            res.build_time = elapsed_since(&start_time);
            Ok(res)
        },
        Err(e) => Err(e),
    }
}

} // verus!
