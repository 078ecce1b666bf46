//! The general trainer: any number of layers.
use vstd::prelude::*;
use vstd::string::*;
use crate::data::RMITrainingData;
use crate::engine::train_layers;
use crate::layers::{join_commas, kinds_named, texts};
use crate::lookup::{index_wf, lemma_trained_wf};
use crate::models::ModelKind;
use crate::plan::{Plan, TrainMode};
use crate::rmi::{max_radii_exec, measure, TrainedRMI};
use crate::train::{keys_of, positions, positions_of, TrainError};

verus! {

/// The plan for training on the given pairs.
pub open spec fn plan_of(pairs: Seq<(u64, usize)>, kinds: Seq<ModelKind>, b: u64, mode: TrainMode) -> Plan {
    Plan { xs: keys_of(pairs), ys: positions_of(pairs), kinds, b, mode }
}

/// Why a plan cannot be carried out, if it cannot: a branching factor of
/// zero, or the first defect of its layers.
pub open spec fn plan_error(plan: Plan) -> Option<TrainError> {
    if plan.b == 0 {
        Some(TrainError::BadBranchingFactor)
    } else {
        plan.defect(0)
    }
}

/// What a trainer gives for a list of names: `BadSpec` where a name calls
/// no model, else the plan's error, else the plan that it carries out.
pub open spec fn trainer_outcome(
    pairs: Seq<(u64, usize)>,
    names: Seq<Seq<char>>,
    b: u64,
    mode: TrainMode,
) -> Result<Plan, TrainError> {
    match kinds_named(names) {
        None => Err(TrainError::BadSpec),
        Some(kinds) => match plan_error(plan_of(pairs, kinds, b, mode)) {
            Some(e) => Err(e),
            None => Ok(plan_of(pairs, kinds, b, mode)),
        },
    }
}

/// The result is the index of the outcome's plan, with the names as its
/// layer list, or the outcome's error.
pub open spec fn trainer_gives(
    r: Result<TrainedRMI, TrainError>,
    pairs: Seq<(u64, usize)>,
    names: Seq<Seq<char>>,
    b: u64,
    mode: TrainMode,
) -> bool {
    match (r, trainer_outcome(pairs, names, b, mode)) {
        (Ok(rmi), Ok(plan)) => {
            &&& rmi.trained_by(plan)
            &&& index_wf(rmi)
            &&& rmi.models@ == join_commas(names)
            &&& rmi.cache_fix is None
            &&& rmi.build_time == 0
        },
        (Err(e), Err(want)) => e == want,
        _ => false,
    }
}

/// The kinds that the names call, if each calls one.
pub fn parse_kinds(names: &Vec<String>) -> (r: Option<Vec<ModelKind>>)
    ensures
        match (r, kinds_named(texts(names@))) {
            (Some(kinds), Some(want)) => kinds@ == want,
            (None, None) => true,
            _ => false,
        },
{
    let ghost t = texts(names@);
    let mut kinds: Vec<ModelKind> = Vec::new();
    let mut i: usize = 0;
    while i < names.len()
        invariant
            i <= names@.len(),
            t == texts(names@),
            kinds@.len() == i,
            forall|j: int| 0 <= j < i ==> (#[trigger] ModelKind::named(t[j])) == Some(kinds@[j]),
        decreases names@.len() - i,
    {
        assert(t[i as int] == names@[i as int]@);
        match ModelKind::from_name(names[i].as_str()) {
            Some(kind) => {
                kinds.push(kind);
            },
            None => {
                assert(ModelKind::named(t[i as int]) is None);
                return None;
            },
        }
        i += 1;
    }
    proof {
        assert forall|j: int| 0 <= j < t.len() implies (#[trigger] ModelKind::named(t[j])) is Some by {
            assert(ModelKind::named(t[j]) == Some(kinds@[j]));
        }
        assert(kinds@ =~= kinds_named(t)->0) by {
            assert forall|j: int| 0 <= j < t.len() implies kinds@[j] == kinds_named(t)->0[j] by {
                assert(ModelKind::named(t[j]) == Some(kinds@[j]));
            }
        }
    }
    Some(kinds)
}

/// The names written one after the other with commas between.
pub fn join_names(names: &Vec<String>) -> (r: String)
    ensures
        r@ == join_commas(texts(names@)),
{
    let ghost t = texts(names@);
    let mut r = String::new();
    let mut i: usize = 0;
    while i < names.len()
        invariant
            i <= names@.len(),
            t == texts(names@),
            r@ == join_commas(t.take(i as int)),
        decreases names@.len() - i,
    {
        proof {
            let head = t.take(i + 1);
            assert(head.drop_last() =~= t.take(i as int));
            assert(head.last() == names@[i as int]@);
            assert(t.take(1)[0] == t[0]);
        }
        if i > 0 {
            r.append(",");
            proof {
                reveal_strlit(",");
                assert(","@ =~= seq![',']);
                assert(join_commas(t.take(i as int)) + seq![','] =~= join_commas(
                    t.take(i as int),
                ).push(','));
            }
        } else {
            assert(Seq::<char>::empty() + names@[0]@ =~= names@[0]@);
        }
        r.append(names[i].as_str());
        i += 1;
    }
    proof {
        assert(t.take(names@.len() as int) =~= t);
    }
    r
}

/// Carries out the plan for the data, the kinds, the branching factor and
/// the mode, and measures the index that it gives.
pub fn train_kinds(
    data: &RMITrainingData,
    kinds: &Vec<ModelKind>,
    models: String,
    b: u64,
    mode: TrainMode,
) -> (r: Result<TrainedRMI, TrainError>)
    requires
        kinds@.len() >= 1,
    ensures
        match r {
            Ok(rmi) => {
                &&& plan_error(plan_of(data@, kinds@, b, mode)) is None
                &&& rmi.trained_by(plan_of(data@, kinds@, b, mode))
                &&& index_wf(rmi)
                &&& rmi.models@ == models@
                &&& rmi.cache_fix is None
                &&& rmi.build_time == 0
            },
            Err(e) => plan_error(plan_of(data@, kinds@, b, mode)) == Some(e),
        },
{
    if b == 0 {
        return Err(TrainError::BadBranchingFactor);
    }
    let xs = data.to_keys();
    let ys = positions(data);
    assert(xs@ =~= keys_of(data@));
    let (layers, preds) = match train_layers(&xs, &ys, kinds, b, mode) {
        Ok(built) => built,
        Err(e) => {
            return Err(e);
        },
    };
    let totals = measure(&preds, &ys);
    let depth: usize = layers.len();
    let last_layer_max_l1s = max_radii_exec(&layers[depth - 1]);
    let third_layer_max_l1s = if depth >= 3 {
        max_radii_exec(&layers[depth - 2])
    } else {
        Vec::new()
    };
    let rmi = TrainedRMI {
            num_rmi_rows: layers[depth - 1].len(),
            num_data_rows: xs.len(),
            model_total_error: totals.total,
            model_total_l2_error: totals.total_l2,
            model_total_log2_error: totals.total_log2,
            model_max_error: totals.max,
            model_max_error_idx: totals.max_idx,
            model_max_log2_error: totals.max_log2,
            last_layer_max_l1s,
            third_layer_max_l1s,
            rmi: layers,
            models,
            branching_factor: b,
            cache_fix: None,
            build_time: 0,
        };
    proof {
        lemma_trained_wf(rmi, plan_of(data@, kinds@, b, mode));
    }
    Ok(rmi)
}

/// Trains an index of any depth: one layer for each name of `model_list`,
/// and the leaves of the kind that `last_model` names.
pub fn train_multi_layer(
    data: &RMITrainingData,
    model_list: &Vec<String>,
    last_model: String,
    branch_factor: u64,
) -> (r: Result<TrainedRMI, TrainError>)
    ensures
        trainer_gives(
            r,
            data@,
            texts(model_list@).push(last_model@),
            branch_factor,
            TrainMode::Bucketed,
        ),
{
    let mut names: Vec<String> = Vec::new();
    let mut i: usize = 0;
    while i < model_list.len()
        invariant
            i <= model_list@.len(),
            names@.len() == i,
            forall|j: int| 0 <= j < i ==> names@[j]@ == model_list@[j]@,
        decreases model_list@.len() - i,
    {
        names.push(model_list[i].clone());
        i += 1;
    }
    names.push(last_model);
    assert(texts(names@) =~= texts(model_list@).push(last_model@));
    train_names(data, &names, branch_factor, TrainMode::Bucketed)
}

/// Trains the index that the names, the branching factor and the mode
/// describe.
pub fn train_names(data: &RMITrainingData, names: &Vec<String>, b: u64, mode: TrainMode) -> (r:
    Result<TrainedRMI, TrainError>)
    requires
        names@.len() >= 1,
    ensures
        trainer_gives(r, data@, texts(names@), b, mode),
{
    let kinds = match parse_kinds(names) {
        Some(kinds) => kinds,
        None => {
            return Err(TrainError::BadSpec);
        },
    };
    train_kinds(data, &kinds, join_names(names), b, mode)
}

} // verus!
