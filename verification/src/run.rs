//! The solver run: seeds a population, then alternates ranking, crossover,
//! fitness evaluation and replacement for the configured number of
//! generations, tracking the best schedule seen.
use vstd::prelude::*;
use vstd::pervasive::unreached;
use crate::instance::Instance;
use crate::individual::{Individual, valid_genome, same_tables, lemma_valid_genome_same_tables};
use crate::fitness::{JsspFitness, evaluated_state};
use crate::population::JsspPopProvider;
use crate::crossover::{NoopCrossover, JsspCrossover, MidPoint};
use crate::replacement::{JsspReplacement, ReplaceWithRandomPopulation, sorted_indices,
    lemma_slice_counts};
use crate::config::{Config, SolverKind, get_run_config};

verus! {

/// The outcome of a run: the best schedule found, its makespan, the final
/// population, and the settings the run was driven by.
pub struct RunReport {
    pub best: Individual,
    pub best_makespan: u64,
    pub final_population: Vec<Individual>,
    pub generations: usize,
    pub pop_size: usize,
}

/// Evaluates every individual of a population, in place of the population.
fn evaluate_all(f: &JsspFitness, inst: &Instance, pop: Vec<Individual>) -> (r: Vec<Individual>)
    requires
        inst.wf(),
        f.wf(),
        forall|i: int| 0 <= i < pop@.len() ==>
            valid_genome(*inst, (#[trigger] pop@[i]).genome@),
    ensures
        r@.len() == pop@.len(),
        forall|i: int| 0 <= i < r@.len() ==> {
            &&& valid_genome(*inst, (#[trigger] r@[i]).genome@)
            &&& evaluated_state(*inst, r@[i], f.penalty as nat)
        },
{
    let mut src = pop;
    let mut out: Vec<Individual> = Vec::new();
    while src.len() > 0
        invariant
            inst.wf(),
            f.wf(),
            out@.len() + src@.len() == pop@.len(),
            forall|i: int| 0 <= i < src@.len() ==>
                valid_genome(*inst, (#[trigger] src@[i]).genome@),
            forall|i: int| 0 <= i < out@.len() ==> {
                &&& valid_genome(*inst, (#[trigger] out@[i]).genome@)
                &&& evaluated_state(*inst, out@[i], f.penalty as nat)
            },
        decreases src@.len(),
    {
        let ghost src_old = src@;
        let mut ind = src.remove(0);
        proof {
            assert forall|i: int| 0 <= i < src@.len() implies
                valid_genome(*inst, (#[trigger] src@[i]).genome@) by {
                assert(src@[i] == src_old[i + 1]);
            }
        }
        let res = f.evaluate(inst, &mut ind);
        if res.is_err() {
            proof {
                assert(false);
            }
        }
        out.push(ind);
    }
    out
}

/// The individual with the smallest makespan; ties keep the earliest.
fn best_of(inst: &Instance, f: &JsspFitness, pop: &Vec<Individual>) -> (b: Individual)
    requires
        inst.wf(),
        pop@.len() >= 1,
        forall|i: int| 0 <= i < pop@.len() ==> {
            &&& valid_genome(*inst, (#[trigger] pop@[i]).genome@)
            &&& evaluated_state(*inst, pop@[i], f.penalty as nat)
        },
    ensures
        valid_genome(*inst, b.genome@),
        evaluated_state(*inst, b, f.penalty as nat),
        forall|i: int| 0 <= i < pop@.len() ==> b.makespan <= (#[trigger] pop@[i]).makespan,
{
    let mut b = pop[0].duplicate();
    let mut i: usize = 1;
    while i < pop.len()
        invariant
            1 <= i <= pop@.len(),
            valid_genome(*inst, b.genome@),
            evaluated_state(*inst, b, f.penalty as nat),
            forall|t: int| 0 <= t < i ==> b.makespan <= (#[trigger] pop@[t]).makespan,
        decreases pop@.len() - i,
    {
        if pop[i].makespan < b.makespan {
            b = pop[i].duplicate();
        }
        i += 1;
    }
    b
}

/// Runs the configured solver on the instance: seeds a feasible population,
/// and for each generation ranks the population, recombines adjacent ranks
/// into offspring, evaluates them and applies the configured replacement.
/// The returned best individual always carries a feasible schedule whose
/// cached times, makespan and fitness equal the simulation of its genome,
/// and its makespan is no worse than any member of the final population.
pub fn run(instance: &Instance, config: &Config) -> (r: RunReport)
    requires
        instance.wf(),
        config.wf(),
    ensures
        valid_genome(*instance, r.best.genome@),
        evaluated_state(*instance, r.best, config.penalty as nat),
        r.best_makespan == r.best.makespan,
        r.pop_size as int == match config.pop_size {
            Some(ps) => ps as int,
            None => 2 * instance.n_ops(),
        },
        r.generations as int == match config.n_gen {
            Some(ng) => ng as int,
            None => crate::config::DEFAULT_GENERATIONS as int,
        },
        r.final_population@.len() == r.pop_size,
        forall|i: int| 0 <= i < r.final_population@.len() ==> {
            &&& valid_genome(*instance, (#[trigger] r.final_population@[i]).genome@)
            &&& evaluated_state(*instance, r.final_population@[i], config.penalty as nat)
            &&& r.best.makespan <= r.final_population@[i].makespan
        },
{
    let rc = get_run_config(instance, config);
    let fitness = match JsspFitness::new(config.penalty) {
        Ok(f) => f,
        Err(_) => unreached(),
    };
    let provider = JsspPopProvider::new(instance.duplicate());
    proof {
        assert(same_tables(provider.instance, *instance));
        assert(provider.wf());
    }
    let raw_pop = provider.generate(rc.pop_size);
    proof {
        assert forall|i: int| 0 <= i < raw_pop@.len() implies
            valid_genome(*instance, (#[trigger] raw_pop@[i]).genome@) by {
            lemma_valid_genome_same_tables(provider.instance, *instance, raw_pop@[i].genome@);
        }
    }
    let mut pop = evaluate_all(&fitness, instance, raw_pop);
    let mut best = best_of(instance, &fitness, &pop);
    let crossover = JsspCrossover::new();
    let midpoint = MidPoint::new();
    let noop = NoopCrossover::new();
    let elitist = match JsspReplacement::new(
        JsspPopProvider::new(instance.duplicate()), config.elite_percent, config.random_percent) {
        Ok(rep) => rep,
        Err(_) => unreached(),
    };
    let random_repl = ReplaceWithRandomPopulation::new(
        JsspPopProvider::new(instance.duplicate()));
    proof {
        assert(same_tables(elitist.provider.instance, *instance));
        assert(same_tables(random_repl.provider.instance, *instance));
    }
    let n = rc.pop_size;
    let mut gen: usize = 0;
    while gen < rc.n_gen
        invariant
            instance.wf(),
            fitness.wf(),
            fitness.penalty == config.penalty,
            elitist.wf(),
            random_repl.provider.wf(),
            same_tables(elitist.provider.instance, *instance),
            same_tables(random_repl.provider.instance, *instance),
            elitist.elite_percent == config.elite_percent,
            elitist.random_percent == config.random_percent,
            config.wf(),
            n >= 1,
            pop@.len() == n,
            forall|i: int| 0 <= i < pop@.len() ==> {
                &&& valid_genome(*instance, (#[trigger] pop@[i]).genome@)
                &&& evaluated_state(*instance, pop@[i], fitness.penalty as nat)
            },
            valid_genome(*instance, best.genome@),
            evaluated_state(*instance, best, fitness.penalty as nat),
            forall|i: int| 0 <= i < pop@.len() ==>
                best.makespan <= (#[trigger] pop@[i]).makespan,
        decreases rc.n_gen - gen,
    {
        // rank the population and recombine adjacent ranks
        let order = sorted_indices(&pop);
        let mut offspring: Vec<Individual> = Vec::new();
        let mut t: usize = 0;
        while t < n
            invariant
                instance.wf(),
                n >= 1,
                pop@.len() == n,
                crate::replacement::ranks(pop@, order@),
                forall|i: int| 0 <= i < pop@.len() ==> {
                    &&& valid_genome(*instance, (#[trigger] pop@[i]).genome@)
                    &&& evaluated_state(*instance, pop@[i], fitness.penalty as nat)
                },
                offspring@.len() == t,
                forall|i: int| 0 <= i < offspring@.len() ==>
                    valid_genome(*instance, (#[trigger] offspring@[i]).genome@),
            decreases n - t,
        {
            let pa = order[t];
            let pb = order[if t + 1 < n { t + 1 } else { 0 }];
            let child = match config.solver {
                SolverKind::RandomSearch => {
                    let pair = noop.apply(&pop[pa], &pop[pb]);
                    pair.0
                }
                SolverKind::PrecedencePreserving => {
                    let pair = crossover.apply(instance, &pop[pa], &pop[pb]);
                    pair.0
                }
                SolverKind::MidPointSplit => {
                    let pair = midpoint.apply(instance, &pop[pa], &pop[pb]);
                    pair.0
                }
            };
            offspring.push(child);
            t += 1;
        }
        let offspring = evaluate_all(&fitness, instance, offspring);
        let next = match config.solver {
            SolverKind::RandomSearch => {
                random_repl.replace(&pop, &offspring)
            }
            _ => {
                proof {
                    lemma_slice_counts(n as int, config.elite_percent as int,
                        config.random_percent as int);
                    assert forall|i: int| 0 <= i < pop@.len() implies
                        valid_genome(elitist.provider.instance, (#[trigger] pop@[i]).genome@) by {
                        lemma_valid_genome_same_tables(elitist.provider.instance, *instance,
                            pop@[i].genome@);
                    }
                    assert forall|i: int| 0 <= i < offspring@.len() implies
                        valid_genome(elitist.provider.instance,
                            (#[trigger] offspring@[i]).genome@) by {
                        lemma_valid_genome_same_tables(elitist.provider.instance, *instance,
                            offspring@[i].genome@);
                    }
                }
                elitist.replace(&pop, &offspring)
            }
        };
        proof {
            assert forall|i: int| 0 <= i < next@.len() implies
                valid_genome(*instance, (#[trigger] next@[i]).genome@) by {
                if config.solver is RandomSearch {
                    lemma_valid_genome_same_tables(random_repl.provider.instance, *instance,
                        next@[i].genome@);
                } else {
                    lemma_valid_genome_same_tables(elitist.provider.instance, *instance,
                        next@[i].genome@);
                }
            }
        }
        pop = evaluate_all(&fitness, instance, next);
        let gen_best = best_of(instance, &fitness, &pop);
        if gen_best.makespan < best.makespan {
            best = gen_best;
        } else {
            proof {
                assert forall|i: int| 0 <= i < pop@.len() implies
                    best.makespan <= (#[trigger] pop@[i]).makespan by {
                    assert(gen_best.makespan <= pop@[i].makespan);
                }
            }
        }
        gen += 1;
    }
    let best_makespan = best.makespan;
    RunReport {
        best,
        best_makespan,
        final_population: pop,
        generations: rc.n_gen,
        pop_size: rc.pop_size,
    }
}

/// Runs the random-search baseline: no-op crossover, full-random
/// replacement.
pub fn run_randomsearch(instance: &Instance, config: &Config) -> (r: RunReport)
    requires
        instance.wf(),
        config.wf(),
    ensures
        valid_genome(*instance, r.best.genome@),
        evaluated_state(*instance, r.best, config.penalty as nat),
        r.best_makespan == r.best.makespan,
        r.pop_size as int == match config.pop_size {
            Some(ps) => ps as int,
            None => 2 * instance.n_ops(),
        },
        r.generations as int == match config.n_gen {
            Some(ng) => ng as int,
            None => crate::config::DEFAULT_GENERATIONS as int,
        },
        r.final_population@.len() == r.pop_size,
        forall|i: int| 0 <= i < r.final_population@.len() ==> {
            &&& valid_genome(*instance, (#[trigger] r.final_population@[i]).genome@)
            &&& evaluated_state(*instance, r.final_population@[i], config.penalty as nat)
            &&& r.best.makespan <= r.final_population@[i].makespan
        },
{
    let cfg = Config {
        pop_size: config.pop_size,
        n_gen: config.n_gen,
        penalty: config.penalty,
        elite_percent: config.elite_percent,
        random_percent: config.random_percent,
        solver: SolverKind::RandomSearch,
    };
    run(instance, &cfg)
}

/// Runs the solver with the precedence-preserving crossover and elitist
/// replacement.
pub fn run_paper_solver(instance: &Instance, config: &Config) -> (r: RunReport)
    requires
        instance.wf(),
        config.wf(),
    ensures
        valid_genome(*instance, r.best.genome@),
        evaluated_state(*instance, r.best, config.penalty as nat),
        r.best_makespan == r.best.makespan,
        r.pop_size as int == match config.pop_size {
            Some(ps) => ps as int,
            None => 2 * instance.n_ops(),
        },
        r.generations as int == match config.n_gen {
            Some(ng) => ng as int,
            None => crate::config::DEFAULT_GENERATIONS as int,
        },
        r.final_population@.len() == r.pop_size,
        forall|i: int| 0 <= i < r.final_population@.len() ==> {
            &&& valid_genome(*instance, (#[trigger] r.final_population@[i]).genome@)
            &&& evaluated_state(*instance, r.final_population@[i], config.penalty as nat)
            &&& r.best.makespan <= r.final_population@[i].makespan
        },
{
    let cfg = Config {
        pop_size: config.pop_size,
        n_gen: config.n_gen,
        penalty: config.penalty,
        elite_percent: config.elite_percent,
        random_percent: config.random_percent,
        solver: SolverKind::PrecedencePreserving,
    };
    run(instance, &cfg)
}

/// Runs the solver with the midpoint-split crossover and elitist
/// replacement.
pub fn run_paper_solver_with_custom_operators(instance: &Instance, config: &Config)
    -> (r: RunReport)
    requires
        instance.wf(),
        config.wf(),
    ensures
        valid_genome(*instance, r.best.genome@),
        evaluated_state(*instance, r.best, config.penalty as nat),
        r.best_makespan == r.best.makespan,
        r.pop_size as int == match config.pop_size {
            Some(ps) => ps as int,
            None => 2 * instance.n_ops(),
        },
        r.generations as int == match config.n_gen {
            Some(ng) => ng as int,
            None => crate::config::DEFAULT_GENERATIONS as int,
        },
        r.final_population@.len() == r.pop_size,
        forall|i: int| 0 <= i < r.final_population@.len() ==> {
            &&& valid_genome(*instance, (#[trigger] r.final_population@[i]).genome@)
            &&& evaluated_state(*instance, r.final_population@[i], config.penalty as nat)
            &&& r.best.makespan <= r.final_population@[i].makespan
        },
{
    let cfg = Config {
        pop_size: config.pop_size,
        n_gen: config.n_gen,
        penalty: config.penalty,
        elite_percent: config.elite_percent,
        random_percent: config.random_percent,
        solver: SolverKind::MidPointSplit,
    };
    run(instance, &cfg)
}

} // verus!
