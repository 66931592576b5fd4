//! Run configuration: the numeric block the solver is driven by, with its
//! validation, and the derived per-run settings.
use vstd::prelude::*;
use crate::instance::Instance;

verus! {

/// Ratios or counts outside their valid ranges, rejected before the first
/// generation runs.
#[derive(Clone, Copy, PartialEq, Eq, Structural, Debug)]
pub enum ConfigurationError {
    ZeroPenalty,
    RatioOutOfRange,
    ZeroPopulation,
}

/// Which operator bundle drives the search.
#[derive(Clone, Copy, PartialEq, Eq, Structural, Debug)]
pub enum SolverKind {
    /// Random-search baseline: no-op crossover, full-random replacement.
    RandomSearch,
    /// Precedence-preserving crossover with elitist replacement.
    PrecedencePreserving,
    /// Midpoint-split crossover with elitist replacement.
    MidPointSplit,
}

/// The numeric configuration block. `pop_size` and `n_gen` default when
/// unset: population size to twice the operation count and generation count
/// to 400. `elite_percent` of the population survives each generation,
/// `random_percent` is regenerated from scratch, and the rest is filled from
/// the offspring pool.
pub struct Config {
    pub pop_size: Option<usize>,
    pub n_gen: Option<usize>,
    pub penalty: u32,
    pub elite_percent: u32,
    pub random_percent: u32,
    pub solver: SolverKind,
}

impl Config {
    pub open spec fn wf(self) -> bool {
        &&& self.penalty >= 1
        &&& self.elite_percent + self.random_percent <= 100
        &&& self.pop_size != Some(0usize)
    }

    /// Validates a configuration: the penalty exponent must be positive, the
    /// elite and random shares may not together exceed the whole population,
    /// and an explicit population size may not be zero.
    pub fn new(pop_size: Option<usize>, n_gen: Option<usize>, penalty: u32,
        elite_percent: u32, random_percent: u32, solver: SolverKind)
        -> (r: Result<Config, ConfigurationError>)
        ensures
            r is Ok <==> penalty >= 1 && elite_percent + random_percent <= 100
                && pop_size != Some(0usize),
            r matches Ok(c) ==> {
                &&& c.wf()
                &&& c.pop_size == pop_size
                &&& c.n_gen == n_gen
                &&& c.penalty == penalty
                &&& c.elite_percent == elite_percent
                &&& c.random_percent == random_percent
                &&& c.solver == solver
            },
            r == Err::<Config, ConfigurationError>(ConfigurationError::ZeroPenalty)
                <==> penalty == 0,
            r == Err::<Config, ConfigurationError>(ConfigurationError::RatioOutOfRange)
                <==> penalty >= 1 && elite_percent + random_percent > 100,
            r == Err::<Config, ConfigurationError>(ConfigurationError::ZeroPopulation)
                <==> penalty >= 1 && elite_percent + random_percent <= 100
                    && pop_size == Some(0usize),
    {
        if penalty == 0 {
            return Err(ConfigurationError::ZeroPenalty);
        }
        if elite_percent > 100 || random_percent > 100 - elite_percent {
            return Err(ConfigurationError::RatioOutOfRange);
        }
        if let Some(ps) = pop_size {
            if ps == 0 {
                return Err(ConfigurationError::ZeroPopulation);
            }
        }
        Ok(Config { pop_size, n_gen, penalty, elite_percent, random_percent, solver })
    }
}

/// The settings one run is driven by, after defaults are resolved.
pub struct RunConfig {
    pub pop_size: usize,
    pub n_gen: usize,
}

/// Default generation count when the configuration leaves it unset.
pub const DEFAULT_GENERATIONS: usize = 400;

/// Resolves the run settings: an unset population size defaults to twice the
/// instance's operation count, an unset generation count to
/// `DEFAULT_GENERATIONS`.
pub fn get_run_config(instance: &Instance, config: &Config) -> (rc: RunConfig)
    requires
        instance.wf(),
        config.wf(),
    ensures
        rc.pop_size as int == match config.pop_size {
            Some(ps) => ps as int,
            None => 2 * instance.n_ops(),
        },
        rc.n_gen as int == match config.n_gen {
            Some(ng) => ng as int,
            None => DEFAULT_GENERATIONS as int,
        },
        rc.pop_size >= 1,
{
    let pop_size = if let Some(ps) = config.pop_size {
        ps
    } else {
        instance.num_ops() * 2
    };
    let n_gen = if let Some(ng) = config.n_gen {
        ng
    } else {
        DEFAULT_GENERATIONS
    };
    RunConfig { pop_size, n_gen }
}

} // verus!
