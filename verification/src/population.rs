//! The population provider: builds feasible individuals by repeatedly
//! appending, from the set of operations whose job predecessor is already
//! placed, one chosen at random.
use vstd::prelude::*;
use crate::instance::Instance;
use crate::individual::{Individual, valid_genome, valid_slot, job_of, pos_of, count_job,
    lemma_count_job_stable};
use crate::fitness::zero_usize_vec;
use crate::rng::rand_below;
use crate::sums::{seq_sum, lemma_sum_update, lemma_sum_nonneg, lemma_sum_const_bound};

verus! {

/// The per-job placement counts as mathematical integers.
pub open spec fn next_ints(next: Seq<usize>) -> Seq<int> {
    Seq::new(next.len(), |j: int| next[j] as int)
}

/// Generates feasible individuals for an instance: used to seed the initial
/// population and to inject fresh random individuals during replacement.
pub struct JsspPopProvider {
    pub instance: Instance,
}

impl JsspPopProvider {
    pub open spec fn wf(self) -> bool {
        self.instance.wf()
    }

    pub fn new(instance: Instance) -> (r: JsspPopProvider)
        ensures
            r.instance == instance,
    {
        JsspPopProvider { instance }
    }

    /// One genome, built by starting from the set of jobs with work left and
    /// repeatedly appending the next unplaced operation of a randomly chosen
    /// one: job precedence holds by construction, and every operation is
    /// placed exactly once.
    fn generate_genome(&self) -> (g: Vec<usize>)
        requires
            self.wf(),
        ensures
            valid_genome(self.instance, g@),
    {
        let inst = &self.instance;
        let n_jobs = inst.num_jobs();
        let mut next: Vec<usize> = zero_usize_vec(n_jobs);
        let mut ready: Vec<usize> = Vec::new();
        let mut j: usize = 0;
        while j < n_jobs
            invariant
                j <= n_jobs,
                n_jobs as int == inst.n_jobs(),
                next@.len() == n_jobs,
                forall|jj: int| 0 <= jj < n_jobs ==> (#[trigger] next@[jj]) == 0,
                forall|i: int| 0 <= i < ready@.len() ==> {
                    &&& ((#[trigger] ready@[i]) as int) < j
                    &&& inst.job_len(ready@[i] as int) > 0
                },
                forall|i1: int, i2: int| 0 <= i1 < i2 < ready@.len() ==> ready@[i1] != ready@[i2],
                forall|jj: int| 0 <= jj < j && inst.job_len(jj) > 0 ==>
                    ready@.contains(jj as usize),
            decreases n_jobs - j,
        {
            if inst.job_lens[j] > 0 {
                let ghost ready_old = ready@;
                ready.push(j);
                proof {
                    assert forall|jj: int| 0 <= jj < j + 1 && inst.job_len(jj) > 0 implies
                        ready@.contains(jj as usize) by {
                        if jj < j {
                            assert(ready_old.contains(jj as usize));
                            let i = choose|i: int| 0 <= i < ready_old.len()
                                && ready_old[i] == jj as usize;
                            assert(ready@[i] == jj as usize);
                        } else {
                            assert(ready@[ready@.len() - 1] == j);
                        }
                    }
                }
            }
            j += 1;
        }
        let mut out: Vec<usize> = Vec::new();
        proof {
            lemma_sum_nonneg(next_ints(next@));
            lemma_sum_const_bound(next_ints(next@), 0);
        }
        while ready.len() > 0
            invariant
                next@.len() as int == inst.n_jobs(),
                forall|jj: int| 0 <= jj < inst.n_jobs() ==>
                    (#[trigger] next@[jj]) as int <= inst.job_len(jj),
                forall|i: int| 0 <= i < ready@.len() ==> {
                    &&& ((#[trigger] ready@[i]) as int) < inst.n_jobs()
                    &&& (next@[ready@[i] as int] as int) < inst.job_len(ready@[i] as int)
                },
                forall|i1: int, i2: int| 0 <= i1 < i2 < ready@.len() ==> ready@[i1] != ready@[i2],
                forall|jj: int| 0 <= jj < inst.n_jobs()
                    && (next@[jj] as int) < inst.job_len(jj) ==> ready@.contains(jj as usize),
                forall|jj: int| 0 <= jj < inst.n_jobs() ==>
                    (#[trigger] next@[jj]) as int == count_job(self.instance, out@, jj, out@.len() as int),
                forall|kk: int| 0 <= kk < out@.len() ==>
                    #[trigger] valid_slot(self.instance, out@, kk),
                out@.len() as int == seq_sum(next_ints(next@)),
                out@.len() <= inst.n_ops(),
            decreases inst.n_ops() - out@.len(),
        {
            let pick = rand_below(ready.len());
            let jsel = ready[pick];
            let p = next[jsel];
            proof {
                assert(0 <= inst.op_index(jsel as int, p as int) < inst.n_ops());
            }
            let id = inst.job_start[jsel] + p;
            let ghost out_old = out@;
            let ghost next_old = next@;
            out.push(id);
            next[jsel] = p + 1;
            proof {
                let inst_g = self.instance;
                let klen = out_old.len() as int;
                // earlier slots and counts are unchanged by the push
                assert forall|jj: int, kk: int| 0 <= kk <= klen implies
                    #[trigger] count_job(inst_g, out@, jj, kk)
                        == count_job(inst_g, out_old, jj, kk) by {
                    lemma_count_job_stable(inst_g, out_old, out@, jj, kk);
                }
                assert forall|kk: int| 0 <= kk < out@.len() implies
                    #[trigger] valid_slot(inst_g, out@, kk) by {
                    if kk < klen {
                        assert(valid_slot(inst_g, out_old, kk));
                        assert(pos_of(inst_g, out@, kk) == pos_of(inst_g, out_old, kk));
                        assert(job_of(inst_g, out@, kk) == job_of(inst_g, out_old, kk));
                    } else {
                        assert(inst_g.ops@[id as int].job as int == jsel as int);
                        assert(inst_g.ops@[id as int].pos as int == p as int);
                        assert(count_job(inst_g, out@, jsel as int, klen)
                            == next_old[jsel as int] as int);
                    }
                }
                assert forall|jj: int| 0 <= jj < inst_g.n_jobs() implies
                    (#[trigger] next@[jj]) as int
                        == count_job(inst_g, out@, jj, out@.len() as int) by {
                    assert(count_job(inst_g, out@, jj, out@.len() as int)
                        == count_job(inst_g, out@, jj, klen)
                            + if job_of(inst_g, out@, klen) == jj { 1int } else { 0int });
                }
                assert(next_ints(next@) =~= next_ints(next_old).update(jsel as int,
                    next_old[jsel as int] + 1));
                lemma_sum_update(next_ints(next_old), jsel as int, next_old[jsel as int] + 1);
                assert(seq_sum(next_ints(next@)) <= seq_sum(inst_g.job_lens_int())) by {
                    crate::sums::lemma_sum_pointwise_le(next_ints(next@), inst_g.job_lens_int());
                }
            }
            if p + 1 == inst.job_lens[jsel] {
                let ghost ready_old = ready@;
                ready.remove(pick);
                proof {
                    assert forall|i1: int, i2: int| 0 <= i1 < i2 < ready@.len() implies
                        ready@[i1] != ready@[i2] by {
                        let o1: int = if i1 < pick { i1 } else { i1 + 1 };
                        let o2: int = if i2 < pick { i2 } else { i2 + 1 };
                        assert(ready@[i1] == ready_old[o1]);
                        assert(ready@[i2] == ready_old[o2]);
                    }
                    assert forall|jj: int| 0 <= jj < self.instance.n_jobs()
                        && (next@[jj] as int) < self.instance.job_len(jj) implies
                        ready@.contains(jj as usize) by {
                        assert(ready_old.contains(jj as usize));
                        let i = choose|i: int| 0 <= i < ready_old.len()
                            && ready_old[i] == jj as usize;
                        assert(i != pick);
                        if i < pick {
                            assert(ready@[i] == jj as usize);
                        } else {
                            assert(ready@[i - 1] == jj as usize);
                        }
                    }
                }
            }
        }
        proof {
            let inst_g = self.instance;
            assert forall|jj: int| 0 <= jj < inst_g.n_jobs() implies
                next_ints(next@)[jj] == inst_g.job_lens_int()[jj] by {
                if (next@[jj] as int) < inst_g.job_len(jj) {
                    assert(ready@.contains(jj as usize));
                }
            }
            assert(next_ints(next@) =~= inst_g.job_lens_int());
            assert(out@.len() as int == inst_g.n_ops());
        }
        out
    }

    /// `count` fresh individuals, every genome a feasible permutation of the
    /// full operation set; none of them is evaluated yet.
    pub fn generate(&self, count: usize) -> (v: Vec<Individual>)
        requires
            self.wf(),
        ensures
            v@.len() == count,
            forall|i: int| 0 <= i < count ==> {
                &&& valid_genome(self.instance, (#[trigger] v@[i]).genome@)
                &&& !v@[i].evaluated
                &&& v@[i].fitness == 0
            },
    {
        let mut v: Vec<Individual> = Vec::new();
        let mut i: usize = 0;
        while i < count
            invariant
                i <= count,
                v@.len() == i,
                forall|t: int| 0 <= t < i ==> {
                    &&& valid_genome(self.instance, (#[trigger] v@[t]).genome@)
                    &&& !v@[t].evaluated
                    &&& v@[t].fitness == 0
                },
            decreases count - i,
        {
            let g = self.generate_genome();
            v.push(Individual::from_genome(g));
            i += 1;
        }
        v
    }
}

} // verus!
