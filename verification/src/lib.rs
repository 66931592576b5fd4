//! A genetic-algorithm solver core for the job-shop scheduling problem.
//!
//! An `Instance` holds jobs, each an ordered sequence of operations with a
//! machine assignment and a duration. An `Individual` carries a genome: an
//! ordering of all operations that respects each job's internal precedence.
//! The fitness evaluator simulates the genome left to right, assigning each
//! operation the earliest start compatible with its job predecessor and its
//! machine, and scores the resulting makespan. Crossover operators recombine
//! two parent genomes into valid offspring, and the replacement operator mixes
//! elites, fresh random individuals and offspring into the next population.
#![verifier::loop_isolation(false)]

pub mod sums;
pub mod instance;
pub mod individual;
pub mod rng;
pub mod fitness;
pub mod population;
pub mod crossover;
pub mod replacement;
pub mod config;
pub mod run;
