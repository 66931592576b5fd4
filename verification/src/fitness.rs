//! Fitness evaluation: forward simulation of a genome into start and end
//! times, the resulting makespan, and a score that decreases strictly as the
//! makespan grows.
use vstd::prelude::*;
use vstd::math::max;
use vstd::arithmetic::power::{pow, lemma_pow_positive, lemma_pow_increases, lemma_pow1};
use crate::instance::Instance;
use crate::individual::{Individual, ind_eq, valid_genome, valid_slot, job_of, pos_of, mach_of,
    dur_of, count_job, lemma_count_le_job_len, lemma_count_job_monotone};
use crate::sums::{seq_sum, lemma_sum_nonneg, lemma_sum_update, lemma_sum_pointwise_le,
    lemma_sum_const_bound};

verus! {

/// A genome that cannot be simulated: it is an unrecoverable defect in the
/// component that produced the individual, never an expected runtime state.
/// `WrongLength`: the genome does not hold one slot per operation.
/// `UnknownOperation`: the leftmost defective slot names no operation of the
/// instance. `PrecedenceViolation`: the leftmost defective slot names an
/// operation out of its job's order — a duplicated operation surfaces this
/// way, its within-job position being consumed by the earlier copy.
#[derive(Clone, Copy, PartialEq, Eq, Structural, Debug)]
pub enum ScheduleError {
    WrongLength,
    UnknownOperation,
    PrecedenceViolation,
}

/// Every slot before `k` is sound.
pub open spec fn sound_prefix(inst: Instance, g: Seq<usize>, k: int) -> bool {
    forall|kk: int| 0 <= kk < k ==> #[trigger] valid_slot(inst, g, kk)
}

/// The leftmost defective slot names no operation of the instance.
pub open spec fn first_defect_unknown(inst: Instance, g: Seq<usize>) -> bool {
    exists|k: int| {
        &&& 0 <= k < g.len()
        &&& ((#[trigger] g[k]) as int) >= inst.n_ops()
        &&& sound_prefix(inst, g, k)
    }
}

/// The leftmost defective slot names an operation out of its job's order.
pub open spec fn first_defect_precedence(inst: Instance, g: Seq<usize>) -> bool {
    exists|k: int| {
        &&& 0 <= k < g.len()
        &&& ((#[trigger] g[k]) as int) < inst.n_ops()
        &&& pos_of(inst, g, k) != count_job(inst, g, job_of(inst, g, k), k)
        &&& sound_prefix(inst, g, k)
    }
}

/// End time of the last operation of job `j` among the first `k` genome
/// slots, or zero if none was placed yet.
pub open spec fn last_job_end(inst: Instance, g: Seq<usize>, k: int, j: int) -> int
    decreases k, 0int,
{
    if k <= 0 {
        0
    } else if job_of(inst, g, k - 1) == j {
        end_time(inst, g, k - 1)
    } else {
        last_job_end(inst, g, k - 1, j)
    }
}

/// End time of the last operation on machine `m` among the first `k` genome
/// slots, or zero if none was placed yet.
pub open spec fn last_mach_end(inst: Instance, g: Seq<usize>, k: int, m: int) -> int
    decreases k, 0int,
{
    if k <= 0 {
        0
    } else if mach_of(inst, g, k - 1) == m {
        end_time(inst, g, k - 1)
    } else {
        last_mach_end(inst, g, k - 1, m)
    }
}

/// Earliest feasible start of the operation in genome slot `k`: it waits for
/// its job predecessor and for its machine, whichever finishes later.
pub open spec fn start_time(inst: Instance, g: Seq<usize>, k: int) -> int
    decreases k, 1int,
{
    max(
        last_job_end(inst, g, k, job_of(inst, g, k)),
        last_mach_end(inst, g, k, mach_of(inst, g, k)),
    )
}

/// End time of the operation in genome slot `k`.
pub open spec fn end_time(inst: Instance, g: Seq<usize>, k: int) -> int
    decreases k, 2int,
{
    start_time(inst, g, k) + dur_of(inst, g, k)
}

/// Largest end time among the first `k` genome slots: the makespan once all
/// slots are simulated.
pub open spec fn max_end(inst: Instance, g: Seq<usize>, k: int) -> int
    decreases k,
{
    if k <= 0 {
        0
    } else {
        max(max_end(inst, g, k - 1), end_time(inst, g, k - 1))
    }
}

/// Total processing time of the operations in the first `k` genome slots,
/// accounted per job through the occurrence counts.
pub open spec fn placed_total(inst: Instance, g: Seq<usize>, k: int) -> int {
    seq_sum(Seq::new(inst.n_jobs() as nat,
        |j: int| inst.job_duration_prefix(j, count_job(inst, g, j, k))))
}

proof fn lemma_jdp_mono(inst: Instance, j: int, c1: int, c2: int)
    requires
        0 <= c1 <= c2,
    ensures
        inst.job_duration_prefix(j, c1) <= inst.job_duration_prefix(j, c2),
        inst.job_duration_prefix(j, c1) >= 0,
    decreases c2,
{
    if c2 > c1 {
        lemma_jdp_mono(inst, j, c1, c2 - 1);
    } else if c1 > 0 {
        lemma_jdp_mono(inst, j, 0, c1 - 1);
    }
}

/// Simulating one more slot of a valid genome adds exactly that operation's
/// duration to the placed total.
proof fn lemma_placed_total_step(inst: Instance, g: Seq<usize>, k: int)
    requires
        inst.wf(),
        1 <= k,
        k <= g.len(),
        valid_slot(inst, g, k - 1),
    ensures
        placed_total(inst, g, k) == placed_total(inst, g, k - 1) + dur_of(inst, g, k - 1),
{
    let j = job_of(inst, g, k - 1);
    let p = pos_of(inst, g, k - 1);
    assert(inst.op_wf(g[k - 1] as int));
    lemma_count_job_monotone(inst, g, j, 0, k - 1);
    let prev = Seq::new(inst.n_jobs() as nat,
        |jj: int| inst.job_duration_prefix(jj, count_job(inst, g, jj, k - 1)));
    let cur = Seq::new(inst.n_jobs() as nat,
        |jj: int| inst.job_duration_prefix(jj, count_job(inst, g, jj, k)));
    // The freshly placed operation is the `p`-th of its job.
    assert(inst.op_index(j, p) == g[k - 1] as int);
    assert(inst.job_duration_prefix(j, p + 1)
        == inst.job_duration_prefix(j, p) + dur_of(inst, g, k - 1));
    assert(cur =~= prev.update(j, inst.job_duration_prefix(j, p) + dur_of(inst, g, k - 1)));
    lemma_sum_update(prev, j, inst.job_duration_prefix(j, p) + dur_of(inst, g, k - 1));
}

/// All simulated times of a valid genome prefix stay within the placed
/// total, which itself never exceeds the instance's total duration.
pub proof fn lemma_sim_bounded(inst: Instance, g: Seq<usize>, k: int)
    requires
        inst.wf(),
        0 <= k <= g.len(),
        forall|kk: int| 0 <= kk < k ==> #[trigger] valid_slot(inst, g, kk),
    ensures
        forall|j: int| #[trigger] last_job_end(inst, g, k, j) <= placed_total(inst, g, k),
        forall|m: int| #[trigger] last_mach_end(inst, g, k, m) <= placed_total(inst, g, k),
        max_end(inst, g, k) <= placed_total(inst, g, k),
        k >= 1 ==> end_time(inst, g, k - 1) <= placed_total(inst, g, k),
        placed_total(inst, g, k) >= 0,
    decreases k,
{
    if k == 0 {
        let zs = Seq::new(inst.n_jobs() as nat,
            |j: int| inst.job_duration_prefix(j, count_job(inst, g, j, 0)));
        lemma_sum_nonneg(zs);
        lemma_sum_const_bound(zs, 0);
    } else {
        lemma_sim_bounded(inst, g, k - 1);
        assert(valid_slot(inst, g, k - 1));
        lemma_placed_total_step(inst, g, k);
        assert(inst.op_wf(g[k - 1] as int));
        assert(last_job_end(inst, g, k - 1, job_of(inst, g, k - 1))
            <= placed_total(inst, g, k - 1));
        assert(last_mach_end(inst, g, k - 1, mach_of(inst, g, k - 1))
            <= placed_total(inst, g, k - 1));
        assert(start_time(inst, g, k - 1) <= placed_total(inst, g, k - 1));
        assert(dur_of(inst, g, k - 1) >= 0);
        assert(end_time(inst, g, k - 1) <= placed_total(inst, g, k));
        assert(placed_total(inst, g, k - 1) <= placed_total(inst, g, k));
        assert forall|j: int| #[trigger] last_job_end(inst, g, k, j)
            <= placed_total(inst, g, k) by {
            if job_of(inst, g, k - 1) != j {
                assert(last_job_end(inst, g, k, j) == last_job_end(inst, g, k - 1, j));
            }
        }
        assert forall|m: int| #[trigger] last_mach_end(inst, g, k, m)
            <= placed_total(inst, g, k) by {
            if mach_of(inst, g, k - 1) != m {
                assert(last_mach_end(inst, g, k, m) == last_mach_end(inst, g, k - 1, m));
            }
        }
    }
}

/// The placed total of any valid genome prefix is at most the instance's
/// total processing time.
pub proof fn lemma_placed_le_total(inst: Instance, g: Seq<usize>, k: int)
    requires
        inst.wf(),
        0 <= k <= g.len(),
        forall|kk: int| 0 <= kk < k ==> #[trigger] valid_slot(inst, g, kk),
    ensures
        placed_total(inst, g, k) <= inst.total_duration as int,
{
    let counts = Seq::new(inst.n_jobs() as nat,
        |j: int| inst.job_duration_prefix(j, count_job(inst, g, j, k)));
    assert forall|j: int| 0 <= j < inst.n_jobs() implies
        counts[j] <= inst.per_job_totals()[j] by {
        lemma_count_le_job_len(inst, g, j, k);
        lemma_count_job_monotone(inst, g, j, 0, k);
        lemma_jdp_mono(inst, j, count_job(inst, g, j, k), inst.job_len(j));
    }
    lemma_sum_pointwise_le(counts, inst.per_job_totals());
}

/// Every operation on machine `m` among the first `k` slots ends no later
/// than the machine's cursor.
proof fn lemma_mach_cursor_bound(inst: Instance, g: Seq<usize>, m: int, k: int)
    requires
        0 <= k <= g.len(),
    ensures
        forall|kk: int| 0 <= kk < k && mach_of(inst, g, kk) == m ==>
            #[trigger] end_time(inst, g, kk) <= last_mach_end(inst, g, k, m),
    decreases k,
{
    if k > 0 {
        lemma_mach_cursor_bound(inst, g, m, k - 1);
        assert(last_mach_end(inst, g, k - 1, m) <= last_mach_end(inst, g, k, m)) by {
            if mach_of(inst, g, k - 1) == m {
                assert(last_mach_end(inst, g, k - 1, m) <= start_time(inst, g, k - 1));
                assert(last_mach_end(inst, g, k, m) == end_time(inst, g, k - 1));
            }
        }
        assert forall|kk: int| 0 <= kk < k && mach_of(inst, g, kk) == m implies
            #[trigger] end_time(inst, g, kk) <= last_mach_end(inst, g, k, m) by {
            if kk < k - 1 {
                assert(end_time(inst, g, kk) <= last_mach_end(inst, g, k - 1, m));
            } else {
                assert(last_mach_end(inst, g, k, m) == end_time(inst, g, k - 1));
            }
        }
    }
}

/// Every operation of job `j` among the first `k` slots ends no later than
/// the job's cursor.
proof fn lemma_job_cursor_bound(inst: Instance, g: Seq<usize>, j: int, k: int)
    requires
        0 <= k <= g.len(),
    ensures
        forall|kk: int| 0 <= kk < k && job_of(inst, g, kk) == j ==>
            #[trigger] end_time(inst, g, kk) <= last_job_end(inst, g, k, j),
    decreases k,
{
    if k > 0 {
        lemma_job_cursor_bound(inst, g, j, k - 1);
        assert(last_job_end(inst, g, k - 1, j) <= last_job_end(inst, g, k, j)) by {
            if job_of(inst, g, k - 1) == j {
                assert(last_job_end(inst, g, k - 1, j) <= start_time(inst, g, k - 1));
                assert(last_job_end(inst, g, k, j) == end_time(inst, g, k - 1));
            }
        }
        assert forall|kk: int| 0 <= kk < k && job_of(inst, g, kk) == j implies
            #[trigger] end_time(inst, g, kk) <= last_job_end(inst, g, k, j) by {
            if kk < k - 1 {
                assert(end_time(inst, g, kk) <= last_job_end(inst, g, k - 1, j));
            } else {
                assert(last_job_end(inst, g, k, j) == end_time(inst, g, k - 1));
            }
        }
    }
}

/// No two operations assigned to one machine overlap in simulated time: of
/// any two, the earlier genome slot ends before the later one starts.
pub proof fn lemma_no_machine_overlap(inst: Instance, g: Seq<usize>)
    ensures
        forall|k1: int, k2: int|
            0 <= k1 < k2 < g.len() && mach_of(inst, g, k1) == mach_of(inst, g, k2)
                ==> #[trigger] end_time(inst, g, k1) <= #[trigger] start_time(inst, g, k2),
{
    assert forall|k1: int, k2: int|
        0 <= k1 < k2 < g.len() && mach_of(inst, g, k1) == mach_of(inst, g, k2)
            implies end_time(inst, g, k1) <= start_time(inst, g, k2) by {
        lemma_mach_cursor_bound(inst, g, mach_of(inst, g, k2), k2);
        assert(last_mach_end(inst, g, k2, mach_of(inst, g, k2)) <= start_time(inst, g, k2));
    }
}

/// Within one job the simulated schedule follows the job's precedence order:
/// consecutive slots of the job are ordered by position and never overlap.
pub proof fn lemma_job_precedence_respected(inst: Instance, g: Seq<usize>)
    ensures
        forall|k1: int, k2: int|
            0 <= k1 < k2 < g.len() && job_of(inst, g, k1) == job_of(inst, g, k2)
                ==> #[trigger] end_time(inst, g, k1) <= #[trigger] start_time(inst, g, k2),
{
    assert forall|k1: int, k2: int|
        0 <= k1 < k2 < g.len() && job_of(inst, g, k1) == job_of(inst, g, k2)
            implies end_time(inst, g, k1) <= start_time(inst, g, k2) by {
        lemma_job_cursor_bound(inst, g, job_of(inst, g, k2), k2);
        assert(last_job_end(inst, g, k2, job_of(inst, g, k2)) <= start_time(inst, g, k2));
    }
}

/// Scores at least this value come from makespans whose penalty power still
/// fits the machine range; below it the score grades the remaining makespans
/// directly. Every makespan an instance can reach stays below this bound
/// (`lemma_total_duration_bounded`), so the transform is strictly decreasing
/// over all of them.
pub const SCORE_SPLIT: u64 = 0x8000_0000_0000_0000;

/// Score of a schedule with makespan `m` under penalty exponent `p`: a
/// strictly decreasing transform of `m` raised to the penalty exponent.
/// While the power stays below `SCORE_SPLIT` the score is its distance from
/// `u64::MAX`; past that the score falls back to ranking the makespan
/// itself, strictly below every score of the first kind.
pub open spec fn score_spec(m: int, p: nat) -> int {
    if pow(m, p) < SCORE_SPLIT as int {
        u64::MAX as int - pow(m, p)
    } else if m < SCORE_SPLIT as int {
        SCORE_SPLIT as int - 1 - m
    } else {
        0
    }
}

/// Raising a larger base to the same positive power gives a larger result.
pub proof fn lemma_pow_base_strict(a: int, b: int, p: nat)
    requires
        0 <= a < b,
        p >= 1,
    ensures
        pow(a, p) < pow(b, p),
        pow(a, p) >= 0,
    decreases p,
{
    reveal(pow);
    if p == 1 {
        lemma_pow1(a);
        lemma_pow1(b);
        assert(pow(a, 1) == a && pow(b, 1) == b);
    } else {
        assert(pow(a, p) == a * pow(a, (p - 1) as nat));
        assert(pow(b, p) == b * pow(b, (p - 1) as nat));
        lemma_pow_base_strict(a, b, (p - 1) as nat);
        lemma_pow_positive(b, (p - 1) as nat);
        assert(a * pow(a, (p - 1) as nat) <= a * pow(b, (p - 1) as nat)) by (nonlinear_arith)
            requires a >= 0 && pow(a, (p - 1) as nat) <= pow(b, (p - 1) as nat);
        assert(a * pow(b, (p - 1) as nat) < b * pow(b, (p - 1) as nat)) by (nonlinear_arith)
            requires a < b && pow(b, (p - 1) as nat) > 0;
        assert(a * pow(a, (p - 1) as nat) >= 0) by (nonlinear_arith)
            requires a >= 0 && pow(a, (p - 1) as nat) >= 0;
    }
}

/// Fitness decreases strictly as the makespan grows: a schedule with a
/// smaller makespan always scores strictly higher, for every makespan below
/// `SCORE_SPLIT` — which covers every makespan any instance can reach
/// (`lemma_fitness_monotone_reachable`).
pub proof fn lemma_fitness_monotone(ma: int, mb: int, p: nat)
    requires
        0 <= ma < mb < SCORE_SPLIT as int,
        p >= 1,
    ensures
        score_spec(ma, p) > score_spec(mb, p),
{
    lemma_pow_base_strict(ma, mb, p);
}

/// Every per-job duration total is bounded by the job length times the
/// largest duration.
proof fn lemma_jdp_const_bound(inst: Instance, j: int, c: int)
    requires
        inst.wf(),
        0 <= j < inst.n_jobs(),
        0 <= c <= inst.job_len(j),
    ensures
        inst.job_duration_prefix(j, c) <= c * (crate::instance::MAX_DURATION as int),
    decreases c,
{
    if c > 0 {
        lemma_jdp_const_bound(inst, j, c - 1);
        assert(0 <= inst.op_index(j, c - 1) < inst.n_ops());
        assert(inst.op_wf(inst.op_index(j, c - 1)));
        assert(c * (crate::instance::MAX_DURATION as int)
            == (c - 1) * (crate::instance::MAX_DURATION as int)
                + crate::instance::MAX_DURATION as int) by (nonlinear_arith);
    }
}

/// The total processing time of a well-formed instance stays below
/// `SCORE_SPLIT`, so every simulated makespan does too.
pub proof fn lemma_total_duration_bounded(inst: Instance)
    requires
        inst.wf(),
    ensures
        (inst.total_duration as int) < SCORE_SPLIT as int,
{
    let md = crate::instance::MAX_DURATION as int;
    let scaled = inst.job_lens_int().map_values(|x: int| md * x);
    assert forall|j: int| 0 <= j < inst.n_jobs() implies
        inst.per_job_totals()[j] <= scaled[j] by {
        lemma_jdp_const_bound(inst, j, inst.job_len(j));
        assert(inst.job_len(j) * md == md * inst.job_len(j)) by (nonlinear_arith);
    }
    lemma_sum_pointwise_le(inst.per_job_totals(), scaled);
    crate::sums::lemma_sum_scaled(inst.job_lens_int(), md);
    assert(md * seq_sum(inst.job_lens_int()) == md * inst.n_ops());
    assert(md * inst.n_ops() <= md * (crate::instance::MAX_OPERATIONS as int))
        by (nonlinear_arith)
        requires inst.n_ops() <= crate::instance::MAX_OPERATIONS as int && md >= 0;
    assert(md * (crate::instance::MAX_OPERATIONS as int) == 0x7fff_fffe_8000_0001)
        by (nonlinear_arith)
        requires md == 0xffff_ffff;
}

/// Strict fitness monotonicity for every makespan an instance can reach.
pub proof fn lemma_fitness_monotone_reachable(inst: Instance, ma: int, mb: int, p: nat)
    requires
        inst.wf(),
        0 <= ma < mb <= inst.total_duration as int,
        p >= 1,
    ensures
        score_spec(ma, p) > score_spec(mb, p),
{
    lemma_total_duration_bounded(inst);
    lemma_fitness_monotone(ma, mb, p);
}

/// The state an individual is left in by a successful evaluation of its
/// genome: every derived field equals the simulation of the genome.
pub open spec fn evaluated_state(inst: Instance, ind: Individual, p: nat) -> bool {
    &&& ind.evaluated
    &&& ind.start_times@.len() == inst.n_ops()
    &&& ind.end_times@.len() == inst.n_ops()
    &&& forall|k: int| 0 <= k < inst.n_ops() ==>
        (#[trigger] ind.start_times@[k]) as int == start_time(inst, ind.genome@, k)
    &&& forall|k: int| 0 <= k < inst.n_ops() ==>
        (#[trigger] ind.end_times@[k]) as int == end_time(inst, ind.genome@, k)
    &&& ind.makespan as int == max_end(inst, ind.genome@, inst.n_ops())
    &&& ind.fitness as int == score_spec(ind.makespan as int, p)
}

/// Evaluation is a function of the genome alone: two individuals over the
/// same instance with equal genomes that both carry the evaluated state have
/// identical derived times, makespan and fitness. Re-evaluating an unchanged
/// individual therefore reproduces its scores exactly.
pub proof fn lemma_evaluation_deterministic(inst: Instance, a: Individual, b: Individual, p: nat)
    requires
        a.genome@ == b.genome@,
        evaluated_state(inst, a, p),
        evaluated_state(inst, b, p),
    ensures
        a.start_times@ == b.start_times@,
        a.end_times@ == b.end_times@,
        a.makespan == b.makespan,
        a.fitness == b.fitness,
{
    assert(a.start_times@ =~= b.start_times@);
    assert(a.end_times@ =~= b.end_times@);
}

/// The fitness evaluator. `penalty` is the penalty exponent applied to the
/// makespan before the score transform; a higher exponent sharpens the score
/// gap between short and long schedules.
pub struct JsspFitness {
    pub penalty: u32,
}

impl JsspFitness {
    pub open spec fn wf(self) -> bool {
        self.penalty >= 1
    }

    /// A fitness evaluator with the given penalty exponent; the exponent must
    /// be positive, or the score could not distinguish any two schedules.
    pub fn new(penalty: u32) -> (r: Result<JsspFitness, crate::config::ConfigurationError>)
        ensures
            r is Ok <==> penalty >= 1,
            r matches Ok(f) ==> f.penalty == penalty && f.wf(),
            r is Err <==> r == Err::<JsspFitness, crate::config::ConfigurationError>(
                crate::config::ConfigurationError::ZeroPenalty) && penalty == 0,
    {
        if penalty == 0 {
            Err(crate::config::ConfigurationError::ZeroPenalty)
        } else {
            Ok(JsspFitness { penalty })
        }
    }

    /// `base` to the `exp`-th power, saturating at `u64::MAX`.
    fn pow_saturating(&self, base: u64, exp: u32) -> (r: u64)
        ensures
            pow(base as int, exp as nat) < u64::MAX as int ==> r as int == pow(base as int, exp as nat),
            pow(base as int, exp as nat) >= u64::MAX as int ==> r == u64::MAX,
    {
        let mut r: u64 = 1;
        let mut i: u32 = 0;
        proof {
            reveal(pow);
        }
        while i < exp
            invariant
                i <= exp,
                r as int == pow(base as int, i as nat),
            decreases exp - i,
        {
            match r.checked_mul(base) {
                Some(next) => {
                    r = next;
                    proof {
                        reveal(pow);
                        assert(pow(base as int, (i + 1) as nat)
                            == base * pow(base as int, i as nat));
                        assert(base as int * pow(base as int, i as nat)
                            == pow(base as int, i as nat) * base as int)
                            by (nonlinear_arith);
                    }
                }
                None => {
                    proof {
                        reveal(pow);
                        assert(r as int * base as int > u64::MAX as int);
                        if base == 0 {
                            assert(r as int * base as int == 0) by (nonlinear_arith)
                                requires base == 0u64;
                        }
                        if base == 1 {
                            assert(r as int * base as int == r as int) by (nonlinear_arith)
                                requires base == 1u64;
                        }
                        assert(base >= 2);
                        lemma_pow_positive(base as int, i as nat);
                        assert(pow(base as int, (i + 1) as nat)
                            == base * pow(base as int, i as nat));
                        assert(base as int * pow(base as int, i as nat)
                            == pow(base as int, i as nat) * base as int)
                            by (nonlinear_arith);
                        lemma_pow_increases(base as nat, (i + 1) as nat, exp as nat);
                    }
                    return u64::MAX;
                }
            }
            i += 1;
        }
        r
    }

    /// Evaluates an individual: simulates its genome left to right, assigning
    /// each operation the earliest start compatible with its job predecessor
    /// and its machine cursor, and caches start times, end times, makespan and
    /// fitness in the individual. Succeeds exactly on valid genomes; an
    /// invalid genome is a defect in the component that produced it, reported
    /// as a `ScheduleError` with the individual left untouched.
    pub fn evaluate(&self, inst: &Instance, ind: &mut Individual) -> (r: Result<u64, ScheduleError>)
        requires
            inst.wf(),
            self.wf(),
        ensures
            final(ind).genome@ == old(ind).genome@,
            r is Ok <==> valid_genome(*inst, old(ind).genome@),
            r is Err ==> ind_eq(*final(ind), *old(ind)),
            r == Err::<u64, ScheduleError>(ScheduleError::WrongLength)
                <==> old(ind).genome@.len() != inst.n_ops(),
            r == Err::<u64, ScheduleError>(ScheduleError::UnknownOperation)
                <==> old(ind).genome@.len() == inst.n_ops()
                    && first_defect_unknown(*inst, old(ind).genome@),
            r == Err::<u64, ScheduleError>(ScheduleError::PrecedenceViolation)
                <==> old(ind).genome@.len() == inst.n_ops()
                    && first_defect_precedence(*inst, old(ind).genome@),
            r is Ok ==> final(ind).makespan <= inst.total_duration,
            r matches Ok(score) ==> {
                &&& evaluated_state(*inst, *final(ind), self.penalty as nat)
                &&& score == final(ind).fitness
            },
    {
        let n = inst.num_ops();
        let n_jobs = inst.num_jobs();
        if ind.genome.len() != n {
            return Err(ScheduleError::WrongLength);
        }
        let ghost g = ind.genome@;
        let mut job_next: Vec<usize> = zero_usize_vec(n_jobs);
        let mut job_end: Vec<u64> = zero_u64_vec(n_jobs);
        let mut mach_end: Vec<u64> = zero_u64_vec(inst.n_machines);
        let mut starts: Vec<u64> = Vec::new();
        let mut ends: Vec<u64> = Vec::new();
        let mut ms: u64 = 0;
        let mut k: usize = 0;
        while k < n
            invariant
                k <= n,
                ind.genome@ == g,
                job_next@.len() as int == inst.n_jobs(),
                job_end@.len() as int == inst.n_jobs(),
                mach_end@.len() as int == inst.n_machines as int,
                starts@.len() == k && ends@.len() == k,
                forall|kk: int| 0 <= kk < k ==> #[trigger] valid_slot(*inst, g, kk),
                forall|j: int| 0 <= j < inst.n_jobs() ==>
                    (#[trigger] job_next@[j]) as int == count_job(*inst, g, j, k as int),
                forall|j: int| 0 <= j < inst.n_jobs() ==>
                    (#[trigger] job_end@[j]) as int == last_job_end(*inst, g, k as int, j),
                forall|m: int| 0 <= m < inst.n_machines ==>
                    (#[trigger] mach_end@[m]) as int == last_mach_end(*inst, g, k as int, m),
                forall|kk: int| 0 <= kk < k ==>
                    (#[trigger] starts@[kk]) as int == start_time(*inst, g, kk),
                forall|kk: int| 0 <= kk < k ==>
                    (#[trigger] ends@[kk]) as int == end_time(*inst, g, kk),
                ms as int == max_end(*inst, g, k as int),
            decreases n - k,
        {
            let id = ind.genome[k];
            if id >= n {
                proof {
                    if valid_genome(*inst, g) {
                        assert(valid_slot(*inst, g, k as int));
                    }
                    assert(((g[k as int]) as int) >= inst.n_ops() && sound_prefix(*inst, g, k as int));
                    assert(first_defect_unknown(*inst, g));
                    if first_defect_precedence(*inst, g) {
                        let k2 = choose|k2: int| {
                            &&& 0 <= k2 < g.len()
                            &&& ((#[trigger] g[k2]) as int) < inst.n_ops()
                            &&& pos_of(*inst, g, k2)
                                != count_job(*inst, g, job_of(*inst, g, k2), k2)
                            &&& sound_prefix(*inst, g, k2)
                        };
                        if k2 < k as int {
                            assert(valid_slot(*inst, g, k2));
                        } else if k2 > k as int {
                            assert(valid_slot(*inst, g, k as int));
                        }
                        assert(false);
                    }
                }
                return Err(ScheduleError::UnknownOperation);
            }
            let o = inst.ops[id];
            proof {
                assert(inst.op_wf(id as int));
            }
            if o.pos != job_next[o.job] {
                proof {
                    if valid_genome(*inst, g) {
                        assert(valid_slot(*inst, g, k as int));
                    }
                    assert(pos_of(*inst, g, k as int)
                        != count_job(*inst, g, job_of(*inst, g, k as int), k as int));
                    assert(((g[k as int]) as int) < inst.n_ops()
                        && sound_prefix(*inst, g, k as int));
                    assert(first_defect_precedence(*inst, g));
                    if first_defect_unknown(*inst, g) {
                        let k2 = choose|k2: int| {
                            &&& 0 <= k2 < g.len()
                            &&& ((#[trigger] g[k2]) as int) >= inst.n_ops()
                            &&& sound_prefix(*inst, g, k2)
                        };
                        if k2 < k as int {
                            assert(valid_slot(*inst, g, k2));
                        } else if k2 > k as int {
                            assert(valid_slot(*inst, g, k as int));
                        }
                        assert(false);
                    }
                }
                return Err(ScheduleError::PrecedenceViolation);
            }
            proof {
                assert(pos_of(*inst, g, k as int) == o.pos as int);
                assert(count_job(*inst, g, o.job as int, k as int) == o.pos as int);
                assert(valid_slot(*inst, g, k as int));
                lemma_sim_bounded(*inst, g, k as int + 1);
                lemma_placed_le_total(*inst, g, k as int + 1);
                assert(end_time(*inst, g, k as int) <= inst.total_duration as int);
            }
            let js = job_end[o.job];
            let me = mach_end[o.machine];
            let s = if js >= me { js } else { me };
            proof {
                assert(s as int == start_time(*inst, g, k as int));
            }
            let e = s + o.duration;
            starts.push(s);
            ends.push(e);
            job_end[o.job] = e;
            mach_end[o.machine] = e;
            job_next[o.job] = o.pos + 1;
            if e > ms {
                ms = e;
            }
            proof {
                let kn = k as int + 1;
                assert(e as int == end_time(*inst, g, k as int));
                assert forall|j: int| 0 <= j < inst.n_jobs() implies
                    (#[trigger] job_next@[j]) as int == count_job(*inst, g, j, kn) by {}
                assert forall|j: int| 0 <= j < inst.n_jobs() implies
                    (#[trigger] job_end@[j]) as int == last_job_end(*inst, g, kn, j) by {
                    if j != o.job as int {
                        assert(last_job_end(*inst, g, kn, j) == last_job_end(*inst, g, k as int, j));
                    }
                }
                assert forall|m: int| 0 <= m < inst.n_machines implies
                    (#[trigger] mach_end@[m]) as int == last_mach_end(*inst, g, kn, m) by {
                    if m != o.machine as int {
                        assert(last_mach_end(*inst, g, kn, m)
                            == last_mach_end(*inst, g, k as int, m));
                    }
                }
                assert(ms as int == max_end(*inst, g, kn));
            }
            k += 1;
        }
        proof {
            assert(valid_genome(*inst, g));
            if first_defect_unknown(*inst, g) {
                let k2 = choose|k2: int| {
                    &&& 0 <= k2 < g.len()
                    &&& ((#[trigger] g[k2]) as int) >= inst.n_ops()
                    &&& sound_prefix(*inst, g, k2)
                };
                assert(valid_slot(*inst, g, k2));
                assert(false);
            }
            if first_defect_precedence(*inst, g) {
                let k2 = choose|k2: int| {
                    &&& 0 <= k2 < g.len()
                    &&& ((#[trigger] g[k2]) as int) < inst.n_ops()
                    &&& pos_of(*inst, g, k2) != count_job(*inst, g, job_of(*inst, g, k2), k2)
                    &&& sound_prefix(*inst, g, k2)
                };
                assert(valid_slot(*inst, g, k2));
                assert(false);
            }
            lemma_sim_bounded(*inst, g, n as int);
            lemma_placed_le_total(*inst, g, n as int);
        }
        let fit = self.score_of(ms);
        ind.start_times = starts;
        ind.end_times = ends;
        ind.makespan = ms;
        ind.fitness = fit;
        ind.evaluated = true;
        Ok(fit)
    }

    /// The scalar score of a makespan: strictly higher for strictly shorter
    /// schedules over every reachable makespan (`lemma_fitness_monotone`).
    pub fn score_of(&self, makespan: u64) -> (r: u64)
        requires
            self.wf(),
        ensures
            r as int == score_spec(makespan as int, self.penalty as nat),
    {
        let pw = self.pow_saturating(makespan, self.penalty);
        if pw < SCORE_SPLIT {
            u64::MAX - pw
        } else if makespan < SCORE_SPLIT {
            SCORE_SPLIT - 1 - makespan
        } else {
            0
        }
    }
}

pub(crate) fn zero_usize_vec(len: usize) -> (r: Vec<usize>)
    ensures
        r@.len() == len,
        forall|i: int| 0 <= i < len ==> (#[trigger] r@[i]) == 0,
{
    let mut r: Vec<usize> = Vec::new();
    let mut i: usize = 0;
    while i < len
        invariant
            i <= len,
            r@.len() == i,
            forall|j: int| 0 <= j < i ==> (#[trigger] r@[j]) == 0,
        decreases len - i,
    {
        r.push(0);
        i += 1;
    }
    r
}

pub(crate) fn zero_bool_vec(len: usize) -> (r: Vec<bool>)
    ensures
        r@.len() == len,
        forall|i: int| 0 <= i < len ==> !(#[trigger] r@[i]),
{
    let mut r: Vec<bool> = Vec::new();
    let mut i: usize = 0;
    while i < len
        invariant
            i <= len,
            r@.len() == i,
            forall|j: int| 0 <= j < i ==> !(#[trigger] r@[j]),
        decreases len - i,
    {
        r.push(false);
        i += 1;
    }
    r
}

pub(crate) fn zero_u64_vec(len: usize) -> (r: Vec<u64>)
    ensures
        r@.len() == len,
        forall|i: int| 0 <= i < len ==> (#[trigger] r@[i]) == 0,
{
    let mut r: Vec<u64> = Vec::new();
    let mut i: usize = 0;
    while i < len
        invariant
            i <= len,
            r@.len() == i,
            forall|j: int| 0 <= j < i ==> (#[trigger] r@[j]) == 0,
        decreases len - i,
    {
        r.push(0);
        i += 1;
    }
    r
}

} // verus!
