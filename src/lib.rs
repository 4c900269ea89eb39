//! Feature selection for binary classification by a genetic algorithm whose
//! fitness is the AUC of a signed-sum linear score, less a penalty per
//! selected feature.
pub mod data;
pub mod ga;
pub mod auc;
pub mod individual;
pub mod param;
pub mod population;
pub mod rng;
pub mod utils;
