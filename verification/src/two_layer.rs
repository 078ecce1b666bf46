//! The trainers of two and three layers.
use vstd::prelude::*;
use vstd::string::*;
use crate::data::RMITrainingData;
use crate::layers::texts;
use crate::multi_layer::{train_names, trainer_gives};
use crate::plan::TrainMode;
use crate::rmi::TrainedRMI;
use crate::train::TrainError;

verus! {

fn two_names(first: &str, second: &str) -> (names: Vec<String>)
    ensures
        texts(names@) == seq![first@, second@],
{
    let mut names: Vec<String> = Vec::new();
    names.push(String::from_str(first));
    names.push(String::from_str(second));
    assert(texts(names@) =~= seq![first@, second@]);
    names
}

fn three_names(first: &str, second: &str, third: &str) -> (names: Vec<String>)
    ensures
        texts(names@) == seq![first@, second@, third@],
{
    let mut names: Vec<String> = Vec::new();
    names.push(String::from_str(first));
    names.push(String::from_str(second));
    names.push(String::from_str(third));
    assert(texts(names@) =~= seq![first@, second@, third@]);
    names
}

/// Trains a root and, for each of its children that a pair reaches, a leaf
/// on the pairs that reach it.
pub fn train_two_layer(
    data: &RMITrainingData,
    layer1_model: &str,
    layer2_model: &str,
    num_leaf_models: u64,
) -> (r: Result<TrainedRMI, TrainError>)
    ensures
        trainer_gives(
            r,
            data@,
            seq![layer1_model@, layer2_model@],
            num_leaf_models,
            TrainMode::Bucketed,
        ),
{
    let names = two_names(layer1_model, layer2_model);
    train_names(data, &names, num_leaf_models, TrainMode::Bucketed)
}

/// Trains three layers; each model of the middle layer is fitted to the
/// positions of the pairs that reach it.
pub fn train_partial_three_layer(
    data: &RMITrainingData,
    layer1_model: &str,
    layer2_model: &str,
    layer3_model: &str,
    branch_factor: u64,
) -> (r: Result<TrainedRMI, TrainError>)
    ensures
        trainer_gives(
            r,
            data@,
            seq![layer1_model@, layer2_model@, layer3_model@],
            branch_factor,
            TrainMode::Bucketed,
        ),
{
    let names = three_names(layer1_model, layer2_model, layer3_model);
    train_names(data, &names, branch_factor, TrainMode::Bucketed)
}

/// Trains three layers; each model of the middle layer is fitted to the
/// positions that the root predicts for the pairs that reach it.
pub fn train_three_layer(
    data: &RMITrainingData,
    layer1_model: &str,
    layer2_model: &str,
    layer3_model: &str,
    branch_factor: u64,
) -> (r: Result<TrainedRMI, TrainError>)
    ensures
        trainer_gives(
            r,
            data@,
            seq![layer1_model@, layer2_model@, layer3_model@],
            branch_factor,
            TrainMode::RootTargets,
        ),
{
    let names = three_names(layer1_model, layer2_model, layer3_model);
    train_names(data, &names, branch_factor, TrainMode::RootTargets)
}

/// Trains three models, one per layer, each on all the data; the last one
/// gives the predictions.
pub fn train_naive_three_layer(
    data: &RMITrainingData,
    layer1_model: &str,
    layer2_model: &str,
    layer3_model: &str,
    branch_factor: u64,
) -> (r: Result<TrainedRMI, TrainError>)
    ensures
        trainer_gives(
            r,
            data@,
            seq![layer1_model@, layer2_model@, layer3_model@],
            branch_factor,
            TrainMode::Unbucketed,
        ),
{
    let names = three_names(layer1_model, layer2_model, layer3_model);
    train_names(data, &names, branch_factor, TrainMode::Unbucketed)
}

} // verus!
