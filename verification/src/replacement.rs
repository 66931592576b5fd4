//! Replacement operators: build the next generation from elites, freshly
//! generated individuals and the best offspring.
use vstd::prelude::*;
use vstd::math::min;
use vstd::arithmetic::div_mod::{lemma_div_is_ordered, lemma_div_multiples_vanish};
use vstd::arithmetic::mul::lemma_mul_inequality;
use crate::individual::{Individual, ind_eq, valid_genome};
use crate::population::JsspPopProvider;

verus! {

/// `idxs` enumerates every index below `n` exactly once.
pub open spec fn index_perm(idxs: Seq<usize>, n: int) -> bool {
    &&& idxs.len() == n
    &&& forall|i: int| 0 <= i < n ==> ((#[trigger] idxs[i]) as int) < n
    &&& forall|i1: int, i2: int| 0 <= i1 < i2 < n ==> idxs[i1] != idxs[i2]
    &&& forall|v: int| 0 <= v < n ==> #[trigger] idxs.contains(v as usize)
}

/// `idxs` ranks the population: it is a permutation of all indices, ordered
/// by non-increasing fitness, with ties broken by insertion order (the
/// earlier individual keeps the earlier rank).
pub open spec fn ranks(pop: Seq<Individual>, idxs: Seq<usize>) -> bool {
    &&& index_perm(idxs, pop.len() as int)
    &&& forall|i1: int, i2: int| 0 <= i1 <= i2 < idxs.len() ==>
        (#[trigger] pop[idxs[i1] as int].fitness) >= (#[trigger] pop[idxs[i2] as int].fitness)
    &&& forall|i1: int, i2: int| 0 <= i1 < i2 < idxs.len()
        && (#[trigger] pop[idxs[i1] as int].fitness) == (#[trigger] pop[idxs[i2] as int].fitness)
            ==> idxs[i1] < idxs[i2]
}

/// Ranks a population: returns its indices ordered by non-increasing fitness
/// (stable insertion keeps earlier individuals first among equal scores).
pub(crate) fn sorted_indices(pop: &Vec<Individual>) -> (idxs: Vec<usize>)
    ensures
        ranks(pop@, idxs@),
{
    let n = pop.len();
    let mut idxs: Vec<usize> = Vec::new();
    let mut i: usize = 0;
    while i < n
        invariant
            i <= n,
            n == pop@.len(),
            idxs@.len() == i,
            forall|t: int| 0 <= t < i ==> ((#[trigger] idxs@[t]) as int) < i,
            forall|t1: int, t2: int| 0 <= t1 < t2 < i ==> idxs@[t1] != idxs@[t2],
            forall|v: int| 0 <= v < i ==> #[trigger] idxs@.contains(v as usize),
            forall|t1: int, t2: int| 0 <= t1 <= t2 < i ==>
                (#[trigger] pop@[idxs@[t1] as int].fitness)
                    >= (#[trigger] pop@[idxs@[t2] as int].fitness),
            forall|t1: int, t2: int| 0 <= t1 < t2 < i
                && (#[trigger] pop@[idxs@[t1] as int].fitness)
                    == (#[trigger] pop@[idxs@[t2] as int].fitness) ==> idxs@[t1] < idxs@[t2],
        decreases n - i,
    {
        let fit = pop[i].fitness;
        let mut pos: usize = 0;
        while pos < i
            invariant
                pos <= i,
                i < n,
                n == pop@.len(),
                idxs@.len() == i,
                forall|t: int| 0 <= t < i ==> ((#[trigger] idxs@[t]) as int) < i,
                forall|t: int| 0 <= t < pos ==> pop@[(#[trigger] idxs@[t]) as int].fitness >= fit,
            decreases i - pos,
        {
            if pop[idxs[pos]].fitness < fit {
                break;
            }
            pos += 1;
        }
        let ghost idxs_old = idxs@;
        idxs.insert(pos, i);
        proof {
            idxs_old.insert_ensures(pos as int, i);
            assert forall|t: int| 0 <= t < i + 1 implies ((#[trigger] idxs@[t]) as int) < i + 1 by {
                if t < pos {
                    assert(idxs@[t] == idxs_old[t]);
                } else if t > pos {
                    assert(idxs@[t] == idxs_old[t - 1]);
                }
            }
            assert forall|t1: int, t2: int| 0 <= t1 < t2 < i + 1 implies
                idxs@[t1] != idxs@[t2] by {
                let o1: int = if t1 < pos { t1 } else { t1 - 1 };
                let o2: int = if t2 < pos { t2 } else { t2 - 1 };
                if t1 != pos && t2 != pos {
                    assert(idxs@[t1] == idxs_old[o1] && idxs@[t2] == idxs_old[o2]);
                } else if t1 == pos {
                    assert(idxs@[t1] == i && idxs@[t2] == idxs_old[o2]);
                } else {
                    assert(idxs@[t2] == i && idxs@[t1] == idxs_old[o1]);
                }
            }
            assert forall|v: int| 0 <= v < i + 1 implies #[trigger] idxs@.contains(v as usize) by {
                if v < i {
                    assert(idxs_old.contains(v as usize));
                    let t = choose|t: int| 0 <= t < idxs_old.len() && idxs_old[t] == v as usize;
                    assert(idxs_old[t] == v as usize);
                    if t < pos {
                        assert(idxs_old.insert(pos as int, i)[t] == idxs_old[t]);
                        assert(idxs@[t] == v as usize);
                    } else {
                        assert(idxs_old.insert(pos as int, i)[t + 1] == idxs_old[t]);
                        assert(idxs@[t + 1] == v as usize);
                    }
                } else {
                    assert(idxs@[pos as int] == i as usize);
                }
            }
            assert forall|t1: int, t2: int| 0 <= t1 <= t2 < i + 1 implies
                (#[trigger] pop@[idxs@[t1] as int].fitness)
                    >= (#[trigger] pop@[idxs@[t2] as int].fitness) by {
                let o1: int = if t1 < pos { t1 } else { t1 - 1 };
                let o2: int = if t2 < pos { t2 } else { t2 - 1 };
                if t1 == pos {
                    if t2 > pos {
                        assert(idxs@[t2] == idxs_old[o2]);
                        assert(pop@[idxs_old[pos as int] as int].fitness < fit);
                        assert(pop@[idxs_old[o2] as int].fitness
                            <= pop@[idxs_old[pos as int] as int].fitness);
                    }
                } else if t2 == pos {
                    assert(idxs@[t1] == idxs_old[o1]);
                    assert(pop@[idxs_old[o1] as int].fitness >= fit);
                } else {
                    assert(idxs@[t1] == idxs_old[o1] && idxs@[t2] == idxs_old[o2]);
                }
            }
            assert forall|t1: int, t2: int| 0 <= t1 < t2 < i + 1
                && (#[trigger] pop@[idxs@[t1] as int].fitness)
                    == (#[trigger] pop@[idxs@[t2] as int].fitness)
                    implies idxs@[t1] < idxs@[t2] by {
                let o1: int = if t1 < pos { t1 } else { t1 - 1 };
                let o2: int = if t2 < pos { t2 } else { t2 - 1 };
                if t1 == pos {
                    // anything ranked below the fresh index with equal fitness
                    // would contradict the insertion point: past it the
                    // fitness is strictly smaller
                    assert(idxs@[t2] == idxs_old[o2]);
                    assert(pop@[idxs_old[pos as int] as int].fitness < fit);
                    assert(pop@[idxs_old[o2] as int].fitness
                        <= pop@[idxs_old[pos as int] as int].fitness);
                } else if t2 == pos {
                    // every earlier index is smaller than the fresh one
                    assert(idxs@[t1] == idxs_old[o1]);
                    assert((idxs_old[o1] as int) < i);
                    assert(idxs@[t2] == i as usize);
                } else {
                    assert(idxs@[t1] == idxs_old[o1] && idxs@[t2] == idxs_old[o2]);
                }
            }
        }
        i += 1;
    }
    idxs
}

/// Number of elites kept from a population of `n` under `e` percent.
pub open spec fn elite_count(n: int, e: int) -> int {
    n * e / 100
}

/// Number of freshly generated individuals injected under `r` percent, never
/// eating into the elite share.
pub open spec fn random_count(n: int, e: int, r: int) -> int {
    min(n * r / 100, n - elite_count(n, e))
}

/// Number of offspring taken over into the next generation.
pub open spec fn offspring_count(n: int, e: int, r: int) -> int {
    n - elite_count(n, e) - random_count(n, e, r)
}

/// The three slice sizes always partition the population.
pub proof fn lemma_slice_counts(n: int, e: int, r: int)
    requires
        0 <= n,
        0 <= e <= 100,
        0 <= r <= 100,
    ensures
        0 <= elite_count(n, e) <= n,
        0 <= random_count(n, e, r) <= n - elite_count(n, e),
        0 <= offspring_count(n, e, r) <= n,
        elite_count(n, e) + random_count(n, e, r) + offspring_count(n, e, r) == n,
{
    assert(n * e <= n * 100 && n * r <= n * 100 && n * e >= 0 && n * r >= 0)
        by (nonlinear_arith)
        requires 0 <= n && 0 <= e <= 100 && 0 <= r <= 100;
    lemma_div_is_ordered(n * e, n * 100, 100);
    lemma_div_is_ordered(n * r, n * 100, 100);
    lemma_div_is_ordered(0, n * e, 100);
    lemma_div_is_ordered(0, n * r, 100);
    assert(n * 100 == 100 * n) by (nonlinear_arith);
    lemma_div_multiples_vanish(n, 100);
}

/// Elitist replacement with diversity injection: the best `elite_percent` of
/// the current population survive unchanged, `random_percent` fresh feasible
/// individuals are generated, and the rest is filled with the best offspring.
pub struct JsspReplacement {
    pub provider: JsspPopProvider,
    pub elite_percent: u32,
    pub random_percent: u32,
}

impl JsspReplacement {
    pub open spec fn wf(self) -> bool {
        &&& self.provider.wf()
        &&& self.elite_percent + self.random_percent <= 100
    }

    /// A replacement operator; the two shares are percentages and may not
    /// together exceed the whole population.
    pub fn new(provider: JsspPopProvider, elite_percent: u32, random_percent: u32)
        -> (r: Result<JsspReplacement, crate::config::ConfigurationError>)
        requires
            provider.wf(),
        ensures
            r is Ok <==> elite_percent + random_percent <= 100,
            r matches Ok(rep) ==> {
                &&& rep.wf()
                &&& rep.provider == provider
                &&& rep.elite_percent == elite_percent
                &&& rep.random_percent == random_percent
            },
            r is Err ==> r == Err::<JsspReplacement, crate::config::ConfigurationError>(
                crate::config::ConfigurationError::RatioOutOfRange),
    {
        if elite_percent > 100 || random_percent > 100 - elite_percent {
            Err(crate::config::ConfigurationError::RatioOutOfRange)
        } else {
            Ok(JsspReplacement { provider, elite_percent, random_percent })
        }
    }

    /// The next population: as many individuals as the current one, headed by
    /// the elite band in fitness order, then the fresh random band (not yet
    /// evaluated, fitness zero, so never outranking an elite), then the best
    /// offspring in fitness order. The elite band is drawn from the top of a
    /// fitness ranking of the current population, the offspring band from the
    /// top of a ranking of the offspring pool.
    pub fn replace(&self, pop: &Vec<Individual>, offspring: &Vec<Individual>)
        -> (next: Vec<Individual>)
        requires
            self.wf(),
            forall|i: int| 0 <= i < pop@.len() ==>
                valid_genome(self.provider.instance, (#[trigger] pop@[i]).genome@),
            forall|i: int| 0 <= i < offspring@.len() ==>
                valid_genome(self.provider.instance, (#[trigger] offspring@[i]).genome@),
            offspring@.len() >= offspring_count(pop@.len() as int,
                self.elite_percent as int, self.random_percent as int),
        ensures
            next@.len() == pop@.len(),
            forall|i: int| 0 <= i < next@.len() ==>
                valid_genome(self.provider.instance, (#[trigger] next@[i]).genome@),
            ({
                let n = pop@.len() as int;
                let ec = elite_count(n, self.elite_percent as int);
                let rc = random_count(n, self.elite_percent as int, self.random_percent as int);
                &&& exists|s: Seq<usize>| ranks(pop@, s)
                    && forall|t: int| 0 <= t < ec ==> ind_eq(#[trigger] next@[t], pop@[s[t] as int])
                &&& exists|s: Seq<usize>| ranks(offspring@, s)
                    && forall|t: int| ec + rc <= t < n ==>
                        ind_eq(#[trigger] next@[t], offspring@[s[t - ec - rc] as int])
                &&& forall|t1: int, t2: int| 0 <= t1 <= t2 < ec ==>
                    (#[trigger] next@[t1].fitness) >= (#[trigger] next@[t2].fitness)
                &&& forall|t: int| ec <= t < ec + rc ==>
                    !(#[trigger] next@[t]).evaluated && next@[t].fitness == 0
                &&& forall|t1: int, t2: int| 0 <= t1 < ec && ec <= t2 < ec + rc ==>
                    (#[trigger] next@[t1].fitness) >= (#[trigger] next@[t2].fitness)
                &&& forall|t1: int, t2: int| ec + rc <= t1 <= t2 < n ==>
                    (#[trigger] next@[t1].fitness) >= (#[trigger] next@[t2].fitness)
            }),
    {
        let n = pop.len();
        let ghost ei = self.elite_percent as int;
        let ghost ri = self.random_percent as int;
        proof {
            assert(n as int * ei <= u128::MAX as int && n as int * ri <= u128::MAX as int)
                by (nonlinear_arith)
                requires n <= usize::MAX && 0 <= ei <= 100 && 0 <= ri <= 100;
            lemma_mul_inequality(ei, 100, n as int);
            lemma_mul_inequality(ri, 100, n as int);
            assert(n as int * ei == ei * n as int) by (nonlinear_arith);
            assert(n as int * ri == ri * n as int) by (nonlinear_arith);
            assert(n as int * 100 == 100 * n as int) by (nonlinear_arith);
            lemma_div_is_ordered(n as int * ei, n as int * 100, 100);
            lemma_div_is_ordered(n as int * ri, n as int * 100, 100);
            lemma_div_multiples_vanish(n as int, 100);
            assert(elite_count(n as int, ei) <= n as int);
            assert(n as int * ri / 100 <= n as int);
            assert(elite_count(n as int, ei) >= 0 && n as int * ri / 100 >= 0) by {
                assert(n as int * ei >= 0) by (nonlinear_arith)
                    requires n as int >= 0 && ei >= 0;
                assert(n as int * ri >= 0) by (nonlinear_arith)
                    requires n as int >= 0 && ri >= 0;
                lemma_div_is_ordered(0, n as int * ei, 100);
                lemma_div_is_ordered(0, n as int * ri, 100);
            }
        }
        let n_elite = ((n as u128) * (self.elite_percent as u128) / 100) as usize;
        let n_random_raw = ((n as u128) * (self.random_percent as u128) / 100) as usize;
        let n_random = if n_random_raw <= n - n_elite { n_random_raw } else { n - n_elite };
        let n_off = n - n_elite - n_random;
        proof {
            assert(n_elite as int == elite_count(n as int, ei));
            assert(n_random as int == random_count(n as int, ei, ri));
            assert(n_off as int == offspring_count(n as int, ei, ri));
        }
        let elite_idxs = sorted_indices(pop);
        let off_idxs = sorted_indices(offspring);
        let mut next: Vec<Individual> = Vec::new();
        let mut t: usize = 0;
        while t < n_elite
            invariant
                t <= n_elite,
                n_elite <= n,
                n == pop@.len(),
                ranks(pop@, elite_idxs@),
                next@.len() == t,
                forall|q: int| 0 <= q < t ==>
                    ind_eq(#[trigger] next@[q], pop@[elite_idxs@[q] as int]),
            decreases n_elite - t,
        {
            next.push(pop[elite_idxs[t]].duplicate());
            t += 1;
        }
        let fresh = self.provider.generate(n_random);
        let mut t: usize = 0;
        while t < n_random
            invariant
                t <= n_random,
                fresh@.len() == n_random,
                next@.len() == n_elite + t,
                forall|i: int| 0 <= i < n_random ==> {
                    &&& valid_genome(self.provider.instance, (#[trigger] fresh@[i]).genome@)
                    &&& !fresh@[i].evaluated
                    &&& fresh@[i].fitness == 0
                },
                forall|q: int| 0 <= q < n_elite ==>
                    ind_eq(#[trigger] next@[q], pop@[elite_idxs@[q] as int]),
                forall|q: int| n_elite <= q < next@.len() ==>
                    !(#[trigger] next@[q]).evaluated && next@[q].fitness == 0
                        && valid_genome(self.provider.instance, next@[q].genome@),
            decreases n_random - t,
        {
            next.push(fresh[t].duplicate());
            t += 1;
        }
        let mut t: usize = 0;
        while t < n_off
            invariant
                t <= n_off,
                n == pop@.len(),
                n_elite + n_random + n_off == n,
                offspring@.len() >= n_off,
                ranks(pop@, elite_idxs@),
                ranks(offspring@, off_idxs@),
                next@.len() == n_elite + n_random + t,
                forall|q: int| 0 <= q < n_elite ==>
                    ind_eq(#[trigger] next@[q], pop@[elite_idxs@[q] as int]),
                forall|q: int| n_elite <= q < n_elite + n_random ==>
                    !(#[trigger] next@[q]).evaluated && next@[q].fitness == 0
                        && valid_genome(self.provider.instance, next@[q].genome@),
                forall|q: int| n_elite + n_random <= q < next@.len() ==>
                    ind_eq(#[trigger] next@[q],
                        offspring@[off_idxs@[q - n_elite - n_random] as int]),
            decreases n_off - t,
        {
            proof {
                assert((off_idxs@[t as int] as int) < offspring@.len());
            }
            next.push(offspring[off_idxs[t]].duplicate());
            t += 1;
        }
        proof {
            let nn = pop@.len() as int;
            let ec = elite_count(nn, ei);
            let rc = random_count(nn, ei, ri);
            assert(ranks(pop@, elite_idxs@)
                && forall|q: int| 0 <= q < ec ==>
                    ind_eq(#[trigger] next@[q], pop@[elite_idxs@[q] as int]));
            assert(ranks(offspring@, off_idxs@)
                && forall|q: int| ec + rc <= q < nn ==>
                    ind_eq(#[trigger] next@[q], offspring@[off_idxs@[q - ec - rc] as int]));
            assert forall|i: int| 0 <= i < next@.len() implies
                valid_genome(self.provider.instance, (#[trigger] next@[i]).genome@) by {
                if i < ec {
                    assert(ind_eq(next@[i], pop@[elite_idxs@[i] as int]));
                } else if i >= ec + rc {
                    assert(ind_eq(next@[i], offspring@[off_idxs@[i - ec - rc] as int]));
                }
            }
        }
        next
    }
}

/// The replacement's monotonic quality ordering: every elite's fitness is at
/// least the fitness of every individual in the random and offspring bands.
/// The random band always scores zero until evaluated, so the elites
/// dominate it unconditionally; over the offspring band the ordering holds
/// whenever no retained offspring outscores the weakest elite, which the
/// last hypothesis states (with offspring strictly fitter than every elite,
/// the offspring band rightly outranks the elite band).
pub proof fn lemma_elite_band(pop: Seq<Individual>, offspring: Seq<Individual>,
    next: Seq<Individual>, s: Seq<usize>, s2: Seq<usize>, ec: int, rc: int)
    requires
        next.len() == pop.len(),
        0 <= ec,
        0 <= rc,
        ec + rc <= next.len(),
        offspring.len() >= next.len() - ec - rc,
        ranks(pop, s),
        ranks(offspring, s2),
        forall|t: int| 0 <= t < ec ==> ind_eq(#[trigger] next[t], pop[s[t] as int]),
        forall|t: int| ec <= t < ec + rc ==> (#[trigger] next[t]).fitness == 0,
        forall|t: int| ec + rc <= t < next.len() ==>
            ind_eq(#[trigger] next[t], offspring[s2[t - ec - rc] as int]),
        ec > 0 ==> forall|o: int| 0 <= o < offspring.len() ==>
            (#[trigger] offspring[o]).fitness <= next[ec - 1].fitness,
    ensures
        forall|t: int, u: int| 0 <= t < ec && ec <= u < next.len() ==>
            (#[trigger] next[t]).fitness >= (#[trigger] next[u]).fitness,
{
    assert forall|t: int, u: int| 0 <= t < ec && ec <= u < next.len() implies
        (#[trigger] next[t]).fitness >= (#[trigger] next[u]).fitness by {
        assert(ind_eq(next[t], pop[s[t] as int]));
        assert(ind_eq(next[ec - 1], pop[s[ec - 1] as int]));
        assert(pop[s[t] as int].fitness >= pop[s[ec - 1] as int].fitness);
        if u >= ec + rc {
            assert(ind_eq(next[u], offspring[s2[u - ec - rc] as int]));
            assert(((s2[u - ec - rc]) as int) < offspring.len());
            assert(offspring[s2[u - ec - rc] as int].fitness <= next[ec - 1].fitness);
        }
    }
}

/// Replacement for the random-search baseline: the whole next generation is
/// freshly generated, nothing survives.
pub struct ReplaceWithRandomPopulation {
    pub provider: JsspPopProvider,
}

impl ReplaceWithRandomPopulation {
    pub fn new(provider: JsspPopProvider) -> (r: ReplaceWithRandomPopulation)
        ensures
            r.provider == provider,
    {
        ReplaceWithRandomPopulation { provider }
    }

    /// A full fresh population of the same size; the offspring pool is
    /// deliberately ignored.
    pub fn replace(&self, pop: &Vec<Individual>, offspring: &Vec<Individual>)
        -> (next: Vec<Individual>)
        requires
            self.provider.wf(),
        ensures
            next@.len() == pop@.len(),
            forall|i: int| 0 <= i < next@.len() ==> {
                &&& valid_genome(self.provider.instance, (#[trigger] next@[i]).genome@)
                &&& !next@[i].evaluated
                &&& next@[i].fitness == 0
            },
    {
        let _ = offspring;
        self.provider.generate(pop.len())
    }
}

} // verus!
