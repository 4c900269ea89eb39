use vstd::prelude::*;
use crate::data::Data;
use crate::population::pct_of;

verus! {

/// Hyperparameters of one run.
pub struct Param {
    /// Seed of the run's only random generator.
    pub seed: u64,
    /// Number of models in every generation.
    pub population_size: usize,
    /// Fewest non-zero weights of an initial model.
    pub kmin: usize,
    /// Most non-zero weights of an initial model.
    pub kmax: usize,
    /// Fitness taken off per non-zero weight, in millionths of AUC.
    pub kpenalty: u32,
    /// Most generations in a run.
    pub epochs: usize,
    /// Fewest generations before the run may stop on stability.
    pub min_epochs: usize,
    /// Spread of the last ten best fitnesses, in millionths of their mean,
    /// under which the run stops.
    pub max_divergence: u32,
    /// Percentage of the best models kept as parents.
    pub select_elite_pct: u32,
    /// Percentage of the other models drawn at random as parents.
    pub select_random_pct: u32,
    /// Percentage of the children that are mutated.
    pub mutated_children_pct: u32,
    /// Percentage of a mutated child's weights that are drawn again.
    pub mutated_features_pct: u32,
    /// Chance, in percent, that a weight drawn again is non-zero.
    pub mutation_non_null_chance_pct: u32,
}

/// Why a run is refused before it starts.
#[derive(Clone, Copy, Debug, PartialEq, Eq, Structural)]
pub enum ConfigError {
    /// A feature row does not have one value per label, or the data set is
    /// larger than the limits.
    DataShape,
    /// A percentage is above 100.
    Percentage,
    /// The population size is zero.
    EmptyPopulation,
    /// Fewer than two features: no crossover cut point exists.
    TooFewFeatures,
    /// `kmin > kmax`, or `kmax` is above the number of features.
    KRange,
    /// Parent selection keeps fewer than two models, yet children are needed.
    TooFewParents,
}

/// How many parents each generation keeps: the elite share, then the random
/// share of the rest.
pub open spec fn parent_count(p: Param) -> int {
    let n = p.population_size as int;
    let elite = pct_of(p.select_elite_pct, n);
    elite + pct_of(p.select_random_pct, n - elite)
}

/// The first reason, if any, to refuse a run on `d` with `p`.
pub open spec fn config_error(p: Param, d: Data) -> Option<ConfigError> {
    if !d.wf() {
        Some(ConfigError::DataShape)
    } else if p.select_elite_pct > 100 || p.select_random_pct > 100 || p.mutated_children_pct > 100
        || p.mutated_features_pct > 100 || p.mutation_non_null_chance_pct > 100 {
        Some(ConfigError::Percentage)
    } else if p.population_size == 0 {
        Some(ConfigError::EmptyPopulation)
    } else if d.x.len() < 2 {
        Some(ConfigError::TooFewFeatures)
    } else if p.kmin > p.kmax || p.kmax > d.x.len() {
        Some(ConfigError::KRange)
    } else if parent_count(p) < 2 && parent_count(p) < p.population_size {
        Some(ConfigError::TooFewParents)
    } else {
        None
    }
}

impl Param {
    /// Checks the configuration against the data set before a run.
    pub fn validate(&self, d: &Data) -> (r: Result<(), ConfigError>)
        ensures
            r is Ok <==> config_error(*self, *d) is None,
            r matches Err(e) ==> config_error(*self, *d) == Some(e),
    {
        if !d.is_aligned() {
            return Err(ConfigError::DataShape);
        }
        if self.select_elite_pct > 100 || self.select_random_pct > 100
            || self.mutated_children_pct > 100 || self.mutated_features_pct > 100
            || self.mutation_non_null_chance_pct > 100 {
            return Err(ConfigError::Percentage);
        }
        if self.population_size == 0 {
            return Err(ConfigError::EmptyPopulation);
        }
        if d.x.len() < 2 {
            return Err(ConfigError::TooFewFeatures);
        }
        if self.kmin > self.kmax || self.kmax > d.x.len() {
            return Err(ConfigError::KRange);
        }
        let n = self.population_size;
        let elite = crate::population::pct_count(self.select_elite_pct, n);
        let parents = elite + crate::population::pct_count(self.select_random_pct, n - elite);
        if parents < 2 && parents < n {
            return Err(ConfigError::TooFewParents);
        }
        Ok(())
    }
}

} // verus!
