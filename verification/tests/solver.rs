use jssp::config::{Config, ConfigurationError, SolverKind, get_run_config};
use jssp::crossover::{JsspCrossover, MidPoint, NoopCrossover};
use jssp::fitness::{JsspFitness, ScheduleError};
use jssp::individual::Individual;
use jssp::instance::{Instance, InstanceError};
use jssp::population::JsspPopProvider;
use jssp::replacement::{JsspReplacement, ReplaceWithRandomPopulation};
use jssp::run::run;

/// Job 0: machine 0 for 3, then machine 1 for 2.
/// Job 1: machine 1 for 2, then machine 0 for 4. Optimal makespan: 7.
fn toy_instance() -> Instance {
    Instance::new(&vec![vec![(0, 3), (1, 2)], vec![(1, 2), (0, 4)]], 2).unwrap()
}

fn assert_permutation(genome: &Vec<usize>, n: usize) {
    assert_eq!(genome.len(), n);
    let mut seen = vec![false; n];
    for &id in genome {
        assert!(id < n, "operation out of range");
        assert!(!seen[id], "duplicate operation");
        seen[id] = true;
    }
    for s in seen {
        assert!(s, "missing operation");
    }
}

#[test]
fn instance_rejects_empty() {
    let r = Instance::new(&vec![], 2);
    assert_eq!(r.err(), Some(InstanceError::NoOperations));
    let r = Instance::new(&vec![vec![], vec![]], 2);
    assert_eq!(r.err(), Some(InstanceError::NoOperations));
}

#[test]
fn instance_rejects_bad_machine() {
    let r = Instance::new(&vec![vec![(2, 3)]], 2);
    assert_eq!(r.err(), Some(InstanceError::MachineOutOfRange));
}

#[test]
fn instance_rejects_huge_duration() {
    let r = Instance::new(&vec![vec![(0, 0x1_0000_0000)]], 1);
    assert_eq!(r.err(), Some(InstanceError::DurationTooLarge));
}

#[test]
fn config_validation() {
    assert_eq!(
        Config::new(None, None, 0, 10, 20, SolverKind::PrecedencePreserving).err(),
        Some(ConfigurationError::ZeroPenalty)
    );
    assert_eq!(
        Config::new(None, None, 3, 60, 60, SolverKind::PrecedencePreserving).err(),
        Some(ConfigurationError::RatioOutOfRange)
    );
    assert_eq!(
        Config::new(Some(0), None, 3, 10, 20, SolverKind::PrecedencePreserving).err(),
        Some(ConfigurationError::ZeroPopulation)
    );
    assert!(Config::new(None, None, 3, 10, 20, SolverKind::PrecedencePreserving).is_ok());
}

#[test]
fn run_config_defaults() {
    let inst = toy_instance();
    let config = Config::new(None, None, 3, 10, 20, SolverKind::PrecedencePreserving).unwrap();
    let rc = get_run_config(&inst, &config);
    assert_eq!(rc.pop_size, 8); // twice the operation count
    assert_eq!(rc.n_gen, 400);
    let config = Config::new(Some(5), Some(7), 3, 10, 20, SolverKind::PrecedencePreserving).unwrap();
    let rc = get_run_config(&inst, &config);
    assert_eq!(rc.pop_size, 5);
    assert_eq!(rc.n_gen, 7);
}

#[test]
fn generated_individuals_are_permutations() {
    let inst = toy_instance();
    let provider = JsspPopProvider::new(inst);
    let pop = provider.generate(20);
    assert_eq!(pop.len(), 20);
    for ind in &pop {
        assert_permutation(&ind.genome, 4);
        assert!(!ind.evaluated);
    }
}

#[test]
fn generated_individuals_respect_precedence() {
    let inst = toy_instance();
    let provider = JsspPopProvider::new(inst);
    for ind in provider.generate(20) {
        // operation 0 precedes 1 (job 0), operation 2 precedes 3 (job 1)
        let at = |x: usize| ind.genome.iter().position(|&g| g == x).unwrap();
        assert!(at(0) < at(1));
        assert!(at(2) < at(3));
    }
}

#[test]
fn evaluate_computes_known_schedule() {
    let inst = toy_instance();
    let fitness = JsspFitness::new(3).unwrap();
    let mut ind = Individual::from_genome(vec![0, 2, 1, 3]);
    let score = fitness.evaluate(&inst, &mut ind).unwrap();
    assert_eq!(ind.start_times, vec![0, 0, 3, 3]);
    assert_eq!(ind.end_times, vec![3, 2, 5, 7]);
    assert_eq!(ind.makespan, 7);
    assert_eq!(ind.fitness, u64::MAX - 343); // makespan cubed under penalty 3
    assert_eq!(score, ind.fitness);
    assert!(ind.evaluated);
}

#[test]
fn evaluate_rejects_defective_genomes() {
    let inst = toy_instance();
    let fitness = JsspFitness::new(3).unwrap();
    let mut short = Individual::from_genome(vec![0, 1, 2]);
    assert_eq!(fitness.evaluate(&inst, &mut short).err(), Some(ScheduleError::WrongLength));
    assert!(!short.evaluated);
    let mut unknown = Individual::from_genome(vec![0, 1, 2, 9]);
    assert_eq!(fitness.evaluate(&inst, &mut unknown).err(), Some(ScheduleError::UnknownOperation));
    let mut dup = Individual::from_genome(vec![0, 0, 1, 3]);
    assert_eq!(fitness.evaluate(&inst, &mut dup).err(), Some(ScheduleError::PrecedenceViolation));
    let mut swapped = Individual::from_genome(vec![1, 0, 2, 3]);
    assert_eq!(
        fitness.evaluate(&inst, &mut swapped).err(),
        Some(ScheduleError::PrecedenceViolation)
    );
}

#[test]
fn evaluate_is_idempotent() {
    let inst = toy_instance();
    let fitness = JsspFitness::new(3).unwrap();
    let provider = JsspPopProvider::new(inst);
    for mut ind in provider.generate(10) {
        let inst2 = toy_instance();
        let s1 = fitness.evaluate(&inst2, &mut ind).unwrap();
        let starts = ind.start_times.clone();
        let ends = ind.end_times.clone();
        let ms = ind.makespan;
        let s2 = fitness.evaluate(&inst2, &mut ind).unwrap();
        assert_eq!(s1, s2);
        assert_eq!(ind.start_times, starts);
        assert_eq!(ind.end_times, ends);
        assert_eq!(ind.makespan, ms);
    }
}

#[test]
fn fitness_decreases_with_makespan() {
    let fitness = JsspFitness::new(3).unwrap();
    assert!(fitness.score_of(5) > fitness.score_of(7));
    assert!(fitness.score_of(7) > fitness.score_of(100));
    assert!(fitness.score_of(0) > fitness.score_of(1));
    // the two makespans the toy instance can reach
    assert!(fitness.score_of(7) > fitness.score_of(9));
    // strictly decreasing also where the cubed makespan leaves u64:
    // around the branch point (2097152^3 == 1 << 63) and beyond it
    assert!(fitness.score_of(2_097_151) > fitness.score_of(2_097_152));
    assert!(fitness.score_of(2_097_152) > fitness.score_of(2_097_153));
    assert!(fitness.score_of(3_000_000) > fitness.score_of(3_000_001));
    assert!(fitness.score_of(1 << 40) > fitness.score_of((1 << 40) + 1));
}

#[test]
fn simulated_schedules_are_feasible() {
    let inst = toy_instance();
    let fitness = JsspFitness::new(3).unwrap();
    let provider = JsspPopProvider::new(toy_instance());
    for mut ind in provider.generate(20) {
        fitness.evaluate(&inst, &mut ind).unwrap();
        // no two operations on one machine overlap
        for a in 0..ind.genome.len() {
            for b in 0..ind.genome.len() {
                if a == b {
                    continue;
                }
                let (ia, ib) = (ind.genome[a], ind.genome[b]);
                let same_machine = inst.ops[ia].machine == inst.ops[ib].machine;
                let same_job = inst.ops[ia].job == inst.ops[ib].job;
                if same_machine || same_job {
                    assert!(
                        ind.end_times[a] <= ind.start_times[b]
                            || ind.end_times[b] <= ind.start_times[a],
                        "operations overlap"
                    );
                }
            }
        }
    }
}

#[test]
fn crossover_yields_full_length_permutations() {
    let inst = toy_instance();
    let provider = JsspPopProvider::new(toy_instance());
    let parents = provider.generate(2);
    let cx = JsspCrossover::new();
    let (c0, c1) = cx.apply(&inst, &parents[0], &parents[1]);
    assert_permutation(&c0.genome, 4);
    assert_permutation(&c1.genome, 4);
    assert!(!c0.evaluated && !c1.evaluated);
    let mp = MidPoint::new();
    let (m0, m1) = mp.apply(&inst, &parents[0], &parents[1]);
    assert_permutation(&m0.genome, 4);
    assert_permutation(&m1.genome, 4);
    let noop = NoopCrossover::new();
    let (n0, n1) = noop.apply(&parents[0], &parents[1]);
    assert_eq!(n0.genome, parents[0].genome);
    assert_eq!(n1.genome, parents[1].genome);
}

#[test]
fn midpoint_crossover_is_deterministic() {
    let inst = toy_instance();
    let provider = JsspPopProvider::new(toy_instance());
    let parents = provider.generate(2);
    let mp = MidPoint::new();
    let (c0, c1) = mp.apply(&inst, &parents[0], &parents[1]);
    let (d0, d1) = mp.apply(&inst, &parents[0], &parents[1]);
    assert_eq!(c0.genome, d0.genome);
    assert_eq!(c1.genome, d1.genome);
}

#[test]
fn crossover_children_respect_precedence() {
    let inst = toy_instance();
    let provider = JsspPopProvider::new(toy_instance());
    let fitness = JsspFitness::new(3).unwrap();
    for _ in 0..10 {
        let parents = provider.generate(2);
        let (mut c0, mut c1) = JsspCrossover::new().apply(&inst, &parents[0], &parents[1]);
        assert!(fitness.evaluate(&inst, &mut c0).is_ok());
        assert!(fitness.evaluate(&inst, &mut c1).is_ok());
        let (mut m0, mut m1) = MidPoint::new().apply(&inst, &parents[0], &parents[1]);
        assert!(fitness.evaluate(&inst, &mut m0).is_ok());
        assert!(fitness.evaluate(&inst, &mut m1).is_ok());
    }
}

#[test]
fn repair_keeps_valid_genomes_and_mends_broken_ones() {
    let inst = toy_instance();
    // a valid genome passes through unchanged
    assert_eq!(jssp::crossover::repair(&inst, &vec![0, 2, 1, 3]), vec![0, 2, 1, 3]);
    assert_eq!(jssp::crossover::repair(&inst, &vec![2, 3, 0, 1]), vec![2, 3, 0, 1]);
    // positions are reassigned in job order when they are scrambled
    assert_eq!(jssp::crossover::repair(&inst, &vec![1, 0, 3, 2]), vec![0, 1, 2, 3]);
    // slots naming no operation are replaced by the missing ones in job order
    assert_eq!(jssp::crossover::repair(&inst, &vec![9, 9, 9]), vec![0, 1, 2, 3]);
    // duplicates beyond a job's length give way to the other job's operations
    assert_eq!(jssp::crossover::repair(&inst, &vec![0, 1, 0, 1]), vec![0, 1, 2, 3]);
}

#[test]
fn replacement_keeps_population_size() {
    let inst = toy_instance();
    let fitness = JsspFitness::new(3).unwrap();
    let provider = JsspPopProvider::new(toy_instance());
    let mut pop = provider.generate(8);
    let mut offspring = provider.generate(8);
    for ind in pop.iter_mut() {
        fitness.evaluate(&inst, ind).unwrap();
    }
    for ind in offspring.iter_mut() {
        fitness.evaluate(&inst, ind).unwrap();
    }
    let repl = JsspReplacement::new(JsspPopProvider::new(toy_instance()), 25, 25).unwrap();
    let next = repl.replace(&pop, &offspring);
    assert_eq!(next.len(), pop.len());
    // elite band: the two best of the old population, in fitness order,
    // followed by two unevaluated fresh individuals scoring zero
    assert!(next[0].fitness >= next[1].fitness);
    let best_old = pop.iter().map(|i| i.fitness).max().unwrap();
    assert_eq!(next[0].fitness, best_old);
    assert!(!next[2].evaluated && next[2].fitness == 0);
    assert!(!next[3].evaluated && next[3].fitness == 0);
    assert!(next[1].fitness >= next[2].fitness);
    // offspring band in fitness order
    for t in 4..7 {
        assert!(next[t].fitness >= next[t + 1].fitness);
    }

    let rand_repl = ReplaceWithRandomPopulation::new(JsspPopProvider::new(toy_instance()));
    let next = rand_repl.replace(&pop, &offspring);
    assert_eq!(next.len(), pop.len());
    for ind in &next {
        assert!(!ind.evaluated);
        assert_permutation(&ind.genome, 4);
    }
}

#[test]
fn ratio_rejected_by_replacement() {
    let r = JsspReplacement::new(JsspPopProvider::new(toy_instance()), 70, 40);
    assert_eq!(r.err(), Some(ConfigurationError::RatioOutOfRange));
}

#[test]
fn two_job_instance_converges_to_optimum() {
    let inst = toy_instance();
    let config =
        Config::new(Some(8), Some(50), 3, 10, 20, SolverKind::PrecedencePreserving).unwrap();
    let report = run(&inst, &config);
    assert_eq!(report.best_makespan, 7);
    assert_eq!(report.pop_size, 8);
    assert_eq!(report.generations, 50);
}

#[test]
fn midpoint_solver_converges_too() {
    let inst = toy_instance();
    let config = Config::new(Some(8), Some(50), 3, 10, 20, SolverKind::MidPointSplit).unwrap();
    let report = run(&inst, &config);
    assert_eq!(report.best_makespan, 7);
}

#[test]
fn random_search_never_beats_crossover_on_average() {
    let inst = toy_instance();
    let rounds = 10;
    let mut random_total: u64 = 0;
    let mut crossover_total: u64 = 0;
    for _ in 0..rounds {
        let rs_config = Config::new(Some(8), Some(20), 3, 10, 20, SolverKind::RandomSearch).unwrap();
        random_total += run(&inst, &rs_config).best_makespan;
        let cx_config =
            Config::new(Some(8), Some(20), 3, 10, 20, SolverKind::PrecedencePreserving).unwrap();
        crossover_total += run(&inst, &cx_config).best_makespan;
    }
    // lower makespan is better: random search may never do better on average
    assert!(random_total >= crossover_total);
}
