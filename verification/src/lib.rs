//! Recursive model indexes over sorted keys, in integer arithmetic.
//!
//! A recursive model index answers "where in the sorted array does this key
//! sit?" with a small tree of regressions and a search radius per leaf.
//! Every quantity here is an integer: keys reach the models as 64-bit
//! inputs, predictions are positions, and the error measures are exact
//! totals, so that each contract can be stated and checked exactly.
//!
//! * [`load`] reads width-tagged key files, and [`data`] holds the keys
//!   with their positions.
//! * [`models`] names the kinds of model and holds their trained forms;
//!   [`fit`] fits each kind to a run of points, the curved ones by way
//!   of [`curves`].
//! * [`plan`] says what training gives as a function of the data and the
//!   configuration; [`runs`] and [`engine`] build the layers accordingly,
//!   and [`two_layer`], [`multi_layer`] and [`train`] are the trainers.
//! * [`rmi`] is the trained index with its measures of error, [`lookup`]
//!   looks a key up in it, and [`codegen`] gives its size.
//! * [`cache_fix`] draws the spline of a bounded index.
//! * [`optimizer`] searches for the configurations on the frontier of size
//!   and accuracy.
//! * [`report`] lays out what an index and a search have to report.
//! * [`laws`] and [`monotone`] hold what is proved of every trained index.
use vstd::prelude::*;

pub mod cache_fix;
pub mod clock;
pub mod codegen;
pub mod curves;
pub mod data;
pub mod engine;
pub mod fit;
pub mod laws;
pub mod layers;
pub mod load;
pub mod lookup;
pub mod models;
pub mod monotone;
pub mod multi_layer;
pub mod optimizer;
pub mod plan;
pub mod report;
pub mod rmi;
pub mod runs;
pub mod text;
pub mod train;
pub mod two_layer;

pub use codegen::rmi_size;
pub use data::{KeyType, RMITrainingData};
pub use load::U512;
pub use optimizer::find_pareto_efficient_configs;
pub use train::{driver_validation, train, train_bounded, train_for_size};
