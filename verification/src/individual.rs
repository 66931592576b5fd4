//! A candidate schedule: a genome ordering all operations, plus the timing
//! data the fitness evaluator derives from it.
use vstd::prelude::*;
use crate::instance::Instance;
use crate::sums::{seq_sum, lemma_sum_update, lemma_sum_pointwise_le, lemma_sum_eq_forces_pointwise};

verus! {

/// Job of the operation at genome slot `k`.
pub open spec fn job_of(inst: Instance, g: Seq<usize>, k: int) -> int {
    inst.ops@[g[k] as int].job as int
}

/// Position within its job of the operation at genome slot `k`.
pub open spec fn pos_of(inst: Instance, g: Seq<usize>, k: int) -> int {
    inst.ops@[g[k] as int].pos as int
}

/// Machine of the operation at genome slot `k`.
pub open spec fn mach_of(inst: Instance, g: Seq<usize>, k: int) -> int {
    inst.ops@[g[k] as int].machine as int
}

/// Duration of the operation at genome slot `k`.
pub open spec fn dur_of(inst: Instance, g: Seq<usize>, k: int) -> int {
    inst.ops@[g[k] as int].duration as int
}

/// How many operations of job `j` stand in the first `k` genome slots.
pub open spec fn count_job(inst: Instance, g: Seq<usize>, j: int, k: int) -> int
    decreases k,
{
    if k <= 0 {
        0
    } else {
        count_job(inst, g, j, k - 1) + if job_of(inst, g, k - 1) == j { 1int } else { 0int }
    }
}

/// A genome is valid when it names every operation exactly once and respects
/// each job's internal precedence order: slot `k` may hold an operation at
/// position `p` of its job only if exactly `p` operations of that job stand
/// before it. Such a genome is a permutation of the full operation set
/// (`lemma_valid_genome_distinct`, `lemma_valid_genome_complete`).
pub open spec fn valid_genome(inst: Instance, g: Seq<usize>) -> bool {
    &&& g.len() == inst.n_ops()
    &&& forall|k: int| 0 <= k < g.len() ==> #[trigger] valid_slot(inst, g, k)
}

/// Slot `k` names an operation of the instance whose within-job position
/// equals the number of earlier slots of the same job.
pub open spec fn valid_slot(inst: Instance, g: Seq<usize>, k: int) -> bool {
    &&& (g[k] as int) < inst.n_ops()
    &&& pos_of(inst, g, k) == count_job(inst, g, job_of(inst, g, k), k)
}

/// One candidate schedule. `genome` lists every operation of the instance by
/// flat identifier. The remaining fields are derived by the fitness
/// evaluator; they are meaningful only while `evaluated` is set, and any
/// genome change resets them.
pub struct Individual {
    pub genome: Vec<usize>,
    pub start_times: Vec<u64>,
    pub end_times: Vec<u64>,
    pub makespan: u64,
    pub fitness: u64,
    pub evaluated: bool,
}

/// Field-wise equality of two individuals.
pub open spec fn ind_eq(a: Individual, b: Individual) -> bool {
    &&& a.genome@ == b.genome@
    &&& a.start_times@ == b.start_times@
    &&& a.end_times@ == b.end_times@
    &&& a.makespan == b.makespan
    &&& a.fitness == b.fitness
    &&& a.evaluated == b.evaluated
}

impl Individual {
    /// A fresh, not yet evaluated individual around `genome`.
    pub fn from_genome(genome: Vec<usize>) -> (r: Individual)
        ensures
            r.genome@ == genome@,
            !r.evaluated,
            r.fitness == 0,
            r.makespan == 0,
            r.start_times@.len() == 0,
            r.end_times@.len() == 0,
    {
        Individual {
            genome,
            start_times: Vec::new(),
            end_times: Vec::new(),
            makespan: 0,
            fitness: 0,
            evaluated: false,
        }
    }

    /// An exact copy of the individual.
    pub fn duplicate(&self) -> (r: Individual)
        ensures
            ind_eq(r, *self),
    {
        Individual {
            genome: copy_usize_vec(&self.genome),
            start_times: copy_u64_vec(&self.start_times),
            end_times: copy_u64_vec(&self.end_times),
            makespan: self.makespan,
            fitness: self.fitness,
            evaluated: self.evaluated,
        }
    }
}

fn copy_usize_vec(v: &Vec<usize>) -> (r: Vec<usize>)
    ensures
        r@ == v@,
{
    let mut r: Vec<usize> = Vec::new();
    let mut i: usize = 0;
    while i < v.len()
        invariant
            i <= v.len(),
            r@ =~= v@.take(i as int),
        decreases v.len() - i,
    {
        r.push(v[i]);
        i += 1;
    }
    proof {
        assert(r@ =~= v@);
    }
    r
}

fn copy_u64_vec(v: &Vec<u64>) -> (r: Vec<u64>)
    ensures
        r@ == v@,
{
    let mut r: Vec<u64> = Vec::new();
    let mut i: usize = 0;
    while i < v.len()
        invariant
            i <= v.len(),
            r@ =~= v@.take(i as int),
        decreases v.len() - i,
    {
        r.push(v[i]);
        i += 1;
    }
    proof {
        assert(r@ =~= v@);
    }
    r
}

/// Two instances with equal tables describe the same problem.
pub open spec fn same_tables(a: Instance, b: Instance) -> bool {
    &&& a.ops@ == b.ops@
    &&& a.job_lens@ == b.job_lens@
    &&& a.job_start@ == b.job_start@
    &&& a.n_machines == b.n_machines
    &&& a.total_duration == b.total_duration
}

proof fn lemma_count_job_same_tables(a: Instance, b: Instance, g: Seq<usize>, j: int, k: int)
    requires
        same_tables(a, b),
    ensures
        count_job(a, g, j, k) == count_job(b, g, j, k),
    decreases k,
{
    if k > 0 {
        lemma_count_job_same_tables(a, b, g, j, k - 1);
    }
}

/// Genome validity only reads the instance's tables, so it carries over to
/// any instance with equal tables.
pub proof fn lemma_valid_genome_same_tables(a: Instance, b: Instance, g: Seq<usize>)
    requires
        same_tables(a, b),
    ensures
        valid_genome(a, g) <==> valid_genome(b, g),
{
    assert forall|k: int| 0 <= k < g.len() implies
        (valid_slot(a, g, k) <==> valid_slot(b, g, k)) by {
        lemma_count_job_same_tables(a, b, g, job_of(a, g, k), k);
    }
    assert forall|k: int| 0 <= k < g.len() && valid_genome(a, g)
        implies #[trigger] valid_slot(b, g, k) by {
        assert(valid_slot(a, g, k));
    }
    assert forall|k: int| 0 <= k < g.len() && valid_genome(b, g)
        implies #[trigger] valid_slot(a, g, k) by {
        assert(valid_slot(b, g, k));
    }
}

/// Counting more slots never lowers a job's occurrence count, and each slot
/// holding the job raises it by one.
pub proof fn lemma_count_job_monotone(inst: Instance, g: Seq<usize>, j: int, k1: int, k2: int)
    requires
        0 <= k1 <= k2,
    ensures
        count_job(inst, g, j, k1) <= count_job(inst, g, j, k2),
        k1 < k2 && job_of(inst, g, k1) == j ==>
            count_job(inst, g, j, k1) < count_job(inst, g, j, k2),
        count_job(inst, g, j, k1) >= 0,
    decreases k2,
{
    if k2 > k1 {
        lemma_count_job_monotone(inst, g, j, k1, k2 - 1);
    } else if k1 > 0 {
        lemma_count_job_monotone(inst, g, j, 0, k1 - 1);
    }
}

/// `count_job` only reads the first `k` slots, so extending the genome does
/// not change it.
pub proof fn lemma_count_job_stable(inst: Instance, g1: Seq<usize>, g2: Seq<usize>, j: int, k: int)
    requires
        k <= g1.len() <= g2.len(),
        forall|i: int| 0 <= i < g1.len() ==> g1[i] == g2[i],
    ensures
        count_job(inst, g1, j, k) == count_job(inst, g2, j, k),
    decreases k,
{
    if k > 0 {
        lemma_count_job_stable(inst, g1, g2, j, k - 1);
    }
}

/// In a valid genome no operation appears twice.
pub proof fn lemma_valid_genome_distinct(inst: Instance, g: Seq<usize>)
    requires
        valid_genome(inst, g),
    ensures
        forall|k1: int, k2: int| 0 <= k1 < k2 < g.len() ==> g[k1] != g[k2],
{
    assert forall|k1: int, k2: int| 0 <= k1 < k2 < g.len() implies g[k1] != g[k2] by {
        if g[k1] == g[k2] {
            let j = job_of(inst, g, k1);
            assert(valid_slot(inst, g, k1));
            assert(valid_slot(inst, g, k2));
            lemma_count_job_monotone(inst, g, j, k1, k2);
        }
    }
}

/// In a valid genome operations of one job appear in their precedence order.
pub proof fn lemma_valid_genome_precedence(inst: Instance, g: Seq<usize>)
    requires
        valid_genome(inst, g),
    ensures
        forall|k1: int, k2: int|
            0 <= k1 < k2 < g.len() && job_of(inst, g, k1) == job_of(inst, g, k2)
                ==> pos_of(inst, g, k1) < pos_of(inst, g, k2),
{
    assert forall|k1: int, k2: int|
        0 <= k1 < k2 < g.len() && job_of(inst, g, k1) == job_of(inst, g, k2)
            implies pos_of(inst, g, k1) < pos_of(inst, g, k2) by {
        assert(valid_slot(inst, g, k1));
        assert(valid_slot(inst, g, k2));
        lemma_count_job_monotone(inst, g, job_of(inst, g, k1), k1, k2);
    }
}

/// The genome names operation `id` in some slot.
pub open spec fn genome_has(g: Seq<usize>, id: int) -> bool {
    exists|k: int| 0 <= k < g.len() && #[trigger] g[k] as int == id
}

/// The per-job occurrence counts over the first `k` slots.
pub open spec fn counts_seq(inst: Instance, g: Seq<usize>, k: int) -> Seq<int> {
    Seq::new(inst.n_jobs() as nat, |j: int| count_job(inst, g, j, k))
}

/// Every slot of a valid genome prefix holds an operation of some job, so the
/// per-job counts add up to the number of slots counted.
pub proof fn lemma_counts_total(inst: Instance, g: Seq<usize>, k: int)
    requires
        inst.wf(),
        0 <= k <= g.len(),
        forall|kk: int| 0 <= kk < k ==> #[trigger] valid_slot(inst, g, kk),
    ensures
        seq_sum(counts_seq(inst, g, k)) == k,
    decreases k,
{
    if k == 0 {
        crate::sums::lemma_sum_nonneg(counts_seq(inst, g, 0));
        crate::sums::lemma_sum_const_bound(counts_seq(inst, g, 0), 0);
    } else {
        lemma_counts_total(inst, g, k - 1);
        let j = job_of(inst, g, k - 1);
        assert(valid_slot(inst, g, k - 1));
        assert(inst.op_wf(g[k - 1] as int));
        assert(counts_seq(inst, g, k) =~= counts_seq(inst, g, k - 1).update(j,
            count_job(inst, g, j, k - 1) + 1));
        lemma_sum_update(counts_seq(inst, g, k - 1), j, count_job(inst, g, j, k - 1) + 1);
    }
}

/// A job's occurrence count in a valid genome prefix never exceeds the job's
/// length.
pub proof fn lemma_count_le_job_len(inst: Instance, g: Seq<usize>, j: int, k: int)
    requires
        inst.wf(),
        0 <= k <= g.len(),
        0 <= j < inst.n_jobs(),
        forall|kk: int| 0 <= kk < k ==> #[trigger] valid_slot(inst, g, kk),
    ensures
        count_job(inst, g, j, k) <= inst.job_len(j),
    decreases k,
{
    if k > 0 {
        lemma_count_le_job_len(inst, g, j, k - 1);
        if job_of(inst, g, k - 1) == j {
            assert(valid_slot(inst, g, k - 1));
            assert(inst.op_wf(g[k - 1] as int));
        }
    }
}

/// Every position below a job's occurrence count has a witness slot.
pub proof fn lemma_count_occurrence(inst: Instance, g: Seq<usize>, j: int, p: int, k: int)
    requires
        inst.wf(),
        0 <= k <= g.len(),
        0 <= p < count_job(inst, g, j, k),
        forall|kk: int| 0 <= kk < k ==> #[trigger] valid_slot(inst, g, kk),
    ensures
        exists|kk: int|
            0 <= kk < k && job_of(inst, g, kk) == j && #[trigger] pos_of(inst, g, kk) == p,
    decreases k,
{
    if k > 0 {
        if job_of(inst, g, k - 1) == j && p == count_job(inst, g, j, k - 1) {
            assert(valid_slot(inst, g, k - 1));
        } else {
            lemma_count_occurrence(inst, g, j, p, k - 1);
        }
    }
}

/// A valid genome names every operation of the instance: together with
/// `lemma_valid_genome_distinct` it is a permutation of the full operation
/// set — nothing is missing and nothing is duplicated.
pub proof fn lemma_valid_genome_complete(inst: Instance, g: Seq<usize>)
    requires
        inst.wf(),
        valid_genome(inst, g),
    ensures
        forall|j: int| 0 <= j < inst.n_jobs() ==>
            #[trigger] count_job(inst, g, j, g.len() as int) == inst.job_len(j),
        forall|id: int| 0 <= id < inst.n_ops() ==> #[trigger] genome_has(g, id),
{
    let n = g.len() as int;
    lemma_counts_total(inst, g, n);
    assert forall|j: int| 0 <= j < inst.n_jobs() implies
        count_job(inst, g, j, n) <= inst.job_len(j) by {
        lemma_count_le_job_len(inst, g, j, n);
    }
    lemma_sum_pointwise_le(counts_seq(inst, g, n), inst.job_lens_int());
    lemma_sum_eq_forces_pointwise(counts_seq(inst, g, n), inst.job_lens_int());
    assert forall|j: int| 0 <= j < inst.n_jobs() implies
        #[trigger] count_job(inst, g, j, n) == inst.job_len(j) by {
        assert(counts_seq(inst, g, n)[j] == inst.job_lens_int()[j]);
    }
    assert forall|id: int| 0 <= id < inst.n_ops() implies #[trigger] genome_has(g, id) by {
        assert(inst.op_wf(id));
        let j = inst.ops@[id].job as int;
        let p = inst.ops@[id].pos as int;
        lemma_count_occurrence(inst, g, j, p, n);
        let kk = choose|kk: int|
            0 <= kk < n && job_of(inst, g, kk) == j && #[trigger] pos_of(inst, g, kk) == p;
        assert(valid_slot(inst, g, kk));
        assert(inst.op_wf(g[kk] as int));
        assert(g[kk] as int == inst.op_index(j, p));
        assert(id == inst.op_index(j, p));
    }
}

} // verus!
