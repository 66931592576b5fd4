//! The immutable problem instance: jobs, operations, machines and durations.
use vstd::prelude::*;
use crate::sums::{seq_sum, lemma_sum_const_bound, lemma_sum_take_le};

verus! {

/// Largest number of operations an instance may hold; keeps `2 * n_ops`
/// (the default population size) within `usize` on every platform.
pub const MAX_OPERATIONS: usize = 0x7fff_ffff;

/// Largest processing duration of a single operation; keeps every simulated
/// start and end time within `u64`.
pub const MAX_DURATION: u64 = 0xffff_ffff;

/// One unit of work: it belongs to job `job`, stands at position `pos` in that
/// job's sequence, runs on machine `machine` and takes `duration` time units.
#[derive(Clone, Copy)]
pub struct Operation {
    pub job: usize,
    pub pos: usize,
    pub machine: usize,
    pub duration: u64,
}

/// A malformed problem instance, detected once when the instance is built.
#[derive(Clone, Copy, PartialEq, Eq, Structural, Debug)]
pub enum InstanceError {
    NoOperations,
    TooManyOperations,
    MachineOutOfRange,
    DurationTooLarge,
}

/// Total processing time of the first `c` operations of job `j`, read from a
/// flat operation table and a table of first flat indices per job.
pub open spec fn dur_prefix(ops: Seq<Operation>, job_start: Seq<usize>, j: int, c: int) -> int
    decreases c,
{
    if c <= 0 {
        0
    } else {
        dur_prefix(ops, job_start, j, c - 1) + ops[job_start[j] + c - 1].duration
    }
}

/// `dur_prefix` only reads table entries below `job_start[j] + c`, so growing
/// the table does not change it.
pub proof fn lemma_dur_prefix_stable(ops1: Seq<Operation>, ops2: Seq<Operation>,
    job_start: Seq<usize>, j: int, c: int)
    requires
        0 <= j < job_start.len(),
        ops1.len() <= ops2.len(),
        job_start[j] + c <= ops1.len(),
        forall|i: int| 0 <= i < ops1.len() ==> ops1[i] == ops2[i],
    ensures
        dur_prefix(ops1, job_start, j, c) == dur_prefix(ops2, job_start, j, c),
    decreases c,
{
    if c > 0 {
        lemma_dur_prefix_stable(ops1, ops2, job_start, j, c - 1);
    }
}

/// A problem instance: all operations flattened job by job, the length and
/// first flat index of every job, and the machine count.
pub struct Instance {
    pub ops: Vec<Operation>,
    pub job_lens: Vec<usize>,
    pub job_start: Vec<usize>,
    pub n_machines: usize,
    pub total_duration: u64,
}

impl Instance {
    pub open spec fn n_ops(self) -> int {
        self.ops@.len() as int
    }

    pub open spec fn n_jobs(self) -> int {
        self.job_lens@.len() as int
    }

    pub open spec fn job_len(self, j: int) -> int {
        self.job_lens@[j] as int
    }

    /// Flat identifier of the operation at position `p` of job `j`.
    pub open spec fn op_index(self, j: int, p: int) -> int {
        self.job_start@[j] + p
    }

    /// The operation record with flat identifier `id` is internally consistent.
    pub open spec fn op_wf(self, id: int) -> bool {
        let o = self.ops@[id];
        &&& (o.job as int) < self.n_jobs()
        &&& (o.pos as int) < self.job_len(o.job as int)
        &&& id == self.op_index(o.job as int, o.pos as int)
        &&& (o.machine as int) < (self.n_machines as int)
        &&& o.duration <= MAX_DURATION
    }

    /// Total processing time of the first `c` operations of job `j`.
    pub open spec fn job_duration_prefix(self, j: int, c: int) -> int {
        dur_prefix(self.ops@, self.job_start@, j, c)
    }

    /// Per-job total processing times.
    pub open spec fn per_job_totals(self) -> Seq<int> {
        Seq::new(self.n_jobs() as nat, |j: int| self.job_duration_prefix(j, self.job_len(j)))
    }

    pub open spec fn job_lens_int(self) -> Seq<int> {
        Seq::new(self.n_jobs() as nat, |j: int| self.job_len(j))
    }

    /// Well-formedness: every operation record agrees with the job tables,
    /// job lengths add up to the operation count, and the stored total
    /// duration is the sum of all per-job processing times.
    pub open spec fn wf(self) -> bool {
        &&& 1 <= self.n_ops() <= MAX_OPERATIONS as int
        &&& self.job_start@.len() == self.job_lens@.len()
        &&& forall|id: int| 0 <= id < self.n_ops() ==> #[trigger] self.op_wf(id)
        &&& forall|j: int, p: int|
            0 <= j < self.n_jobs() && 0 <= p < self.job_len(j) ==> {
                &&& 0 <= #[trigger] self.op_index(j, p) < self.n_ops()
                &&& self.ops@[self.op_index(j, p)].job as int == j
                &&& self.ops@[self.op_index(j, p)].pos as int == p
            }
        &&& seq_sum(self.job_lens_int()) == self.n_ops()
        &&& self.total_duration as int == seq_sum(self.per_job_totals())
    }

    pub fn num_ops(&self) -> (r: usize)
        ensures
            r as int == self.n_ops(),
    {
        self.ops.len()
    }

    pub fn num_jobs(&self) -> (r: usize)
        ensures
            r as int == self.n_jobs(),
    {
        self.job_lens.len()
    }

    /// An exact copy of the instance.
    pub fn duplicate(&self) -> (r: Instance)
        ensures
            r.ops@ == self.ops@,
            r.job_lens@ == self.job_lens@,
            r.job_start@ == self.job_start@,
            r.n_machines == self.n_machines,
            r.total_duration == self.total_duration,
            self.wf() ==> r.wf(),
    {
        let mut ops: Vec<Operation> = Vec::new();
        let mut i: usize = 0;
        while i < self.ops.len()
            invariant
                i <= self.ops.len(),
                ops@ =~= self.ops@.take(i as int),
            decreases self.ops.len() - i,
        {
            ops.push(self.ops[i]);
            i += 1;
        }
        let mut job_lens: Vec<usize> = Vec::new();
        let mut j: usize = 0;
        while j < self.job_lens.len()
            invariant
                j <= self.job_lens.len(),
                job_lens@ =~= self.job_lens@.take(j as int),
            decreases self.job_lens.len() - j,
        {
            job_lens.push(self.job_lens[j]);
            j += 1;
        }
        let mut job_start: Vec<usize> = Vec::new();
        let mut k: usize = 0;
        while k < self.job_start.len()
            invariant
                k <= self.job_start.len(),
                job_start@ =~= self.job_start@.take(k as int),
            decreases self.job_start.len() - k,
        {
            job_start.push(self.job_start[k]);
            k += 1;
        }
        proof {
            assert(ops@ =~= self.ops@);
            assert(job_lens@ =~= self.job_lens@);
            assert(job_start@ =~= self.job_start@);
        }
        let r = Instance {
            ops,
            job_lens,
            job_start,
            n_machines: self.n_machines,
            total_duration: self.total_duration,
        };
        proof {
            if self.wf() {
                assert forall|id: int| 0 <= id < r.n_ops() implies #[trigger] r.op_wf(id) by {
                    assert(self.op_wf(id));
                }
                assert forall|j: int, p: int|
                    0 <= j < r.n_jobs() && 0 <= p < r.job_len(j) implies {
                    &&& 0 <= #[trigger] r.op_index(j, p) < r.n_ops()
                    &&& r.ops@[r.op_index(j, p)].job as int == j
                    &&& r.ops@[r.op_index(j, p)].pos as int == p
                } by {
                    assert(self.op_index(j, p) == r.op_index(j, p));
                }
                assert(r.job_lens_int() =~= self.job_lens_int());
                assert(r.per_job_totals() =~= self.per_job_totals());
            }
        }
        r
    }
}

/// The per-job operation lists as mathematical sequences of
/// (machine, duration) pairs.
pub open spec fn jobs_view(jobs: Seq<Vec<(usize, u64)>>) -> Seq<Seq<(usize, u64)>> {
    jobs.map_values(|v: Vec<(usize, u64)>| v@)
}

/// Number of operations described by per-job operation lists.
pub open spec fn input_count(jv: Seq<Seq<(usize, u64)>>) -> int {
    seq_sum(Seq::new(jv.len(), |j: int| jv[j].len() as int))
}

/// A description from which an instance can be built: at least one operation,
/// not more than `MAX_OPERATIONS`, every machine index in range and every
/// duration at most `MAX_DURATION`.
pub open spec fn input_ok(jv: Seq<Seq<(usize, u64)>>, n_machines: usize) -> bool {
    &&& 1 <= input_count(jv) <= MAX_OPERATIONS as int
    &&& forall|j: int, p: int|
        0 <= j < jv.len() && 0 <= p < jv[j].len() ==> {
            &&& (#[trigger] jv[j][p]).0 < n_machines
            &&& jv[j][p].1 <= MAX_DURATION
        }
}

impl Instance {
    /// Builds and validates an instance from per-job lists of
    /// (machine, duration) pairs. Jobs keep their order; within a job the
    /// list order is the precedence order.
    pub fn new(jobs: &Vec<Vec<(usize, u64)>>, n_machines: usize) -> (r: Result<Instance, InstanceError>)
        ensures
            r is Ok <==> input_ok(jobs_view(jobs@), n_machines),
            r == Err::<Instance, InstanceError>(InstanceError::NoOperations)
                <==> input_count(jobs_view(jobs@)) == 0,
            r == Err::<Instance, InstanceError>(InstanceError::TooManyOperations)
                <==> input_count(jobs_view(jobs@)) > MAX_OPERATIONS as int,
            r matches Ok(inst) ==> {
                &&& inst.wf()
                &&& inst.n_machines == n_machines
                &&& inst.n_jobs() == jobs@.len()
                &&& forall|j: int| 0 <= j < jobs@.len() ==> inst.job_len(j) == jobs@[j]@.len()
                &&& forall|j: int, p: int|
                    0 <= j < jobs@.len() && 0 <= p < jobs@[j]@.len() ==> {
                        &&& inst.ops@[inst.op_index(j, p)].machine == (#[trigger] jobs@[j]@[p]).0
                        &&& inst.ops@[inst.op_index(j, p)].duration == jobs@[j]@[p].1
                    }
            },
    {
        let ghost jv = jobs_view(jobs@);
        let ghost lens = Seq::new(jv.len(), |j: int| jv[j].len() as int);
        // First pass: count the operations.
        let mut n_total: u128 = 0;
        let mut j: usize = 0;
        while j < jobs.len()
            invariant
                j <= jobs.len(),
                n_total == seq_sum(lens.take(j as int)),
                n_total <= MAX_OPERATIONS as u128,
            decreases jobs.len() - j,
        {
            proof {
                assert(lens.take(j + 1).drop_last() =~= lens.take(j as int));
            }
            n_total = n_total + jobs[j].len() as u128;
            j += 1;
            if n_total > MAX_OPERATIONS as u128 {
                proof {
                    lemma_sum_take_le(lens, j as int);
                }
                return Err(InstanceError::TooManyOperations);
            }
        }
        proof {
            assert(lens.take(jobs@.len() as int) =~= lens);
        }
        if n_total == 0 {
            return Err(InstanceError::NoOperations);
        }
        let ghost n_ops_g = input_count(jv);
        // Second pass: validate and flatten.
        let mut ops: Vec<Operation> = Vec::new();
        let mut job_lens: Vec<usize> = Vec::new();
        let mut job_start: Vec<usize> = Vec::new();
        let mut total_duration: u64 = 0;
        let mut j: usize = 0;
        while j < jobs.len()
            invariant
                j <= jobs.len(),
                job_lens@.len() == j && job_start@.len() == j,
                ops@.len() as int == seq_sum(lens.take(j as int)),
                ops@.len() as int <= n_ops_g <= MAX_OPERATIONS as int,
                forall|jj: int| 0 <= jj < j ==> job_lens@[jj] as int == jv[jj].len(),
                forall|jj: int| 0 <= jj < j ==>
                    #[trigger] job_start@[jj] + jv[jj].len() <= ops@.len(),
                forall|jj: int, p: int|
                    0 <= jj < j && 0 <= p < jv[jj].len() ==> {
                        &&& 0 <= job_start@[jj] + p < ops@.len()
                        &&& (#[trigger] ops@[job_start@[jj] + p]) == (Operation {
                            job: jj as usize,
                            pos: p as usize,
                            machine: jv[jj][p].0,
                            duration: jv[jj][p].1,
                        })
                    },
                forall|id: int| 0 <= id < ops@.len() ==> {
                    let o = #[trigger] ops@[id];
                    &&& (o.job as int) < j
                    &&& (o.pos as int) < jv[o.job as int].len()
                    &&& id == job_start@[o.job as int] + o.pos
                    &&& o.machine < n_machines
                    &&& o.duration <= MAX_DURATION
                },
                total_duration as int == seq_sum(
                    Seq::new(j as nat, |jj: int| dur_prefix(ops@, job_start@, jj, jv[jj].len() as int))),
                total_duration as int <= ops@.len() * (MAX_DURATION as int),
            decreases jobs.len() - j,
        {
            let ghost ops_outer = ops@;
            let ghost start_outer = job_start@;
            let ghost total_outer = total_duration;
            let start_j: usize = ops.len();
            job_start.push(start_j);
            let mut p: usize = 0;
            while p < jobs[j].len()
                invariant
                    0 <= j < jobs.len(),
                    p <= jv[j as int].len(),
                    job_start@ == start_outer.push(start_j),
                    ops@.len() == start_j + p,
                    start_j as int == seq_sum(lens.take(j as int)),
                    ops@.len() as int <= n_ops_g <= MAX_OPERATIONS as int,
                    forall|i: int| 0 <= i < start_j ==> ops@[i] == ops_outer[i],
                    forall|pp: int| 0 <= pp < p ==> (#[trigger] ops@[start_j + pp]) == (Operation {
                        job: j,
                        pos: pp as usize,
                        machine: jv[j as int][pp].0,
                        duration: jv[j as int][pp].1,
                    }),
                    forall|id: int| start_j <= id < ops@.len() ==> {
                        let o = #[trigger] ops@[id];
                        &&& o.job == j
                        &&& (o.pos as int) < jv[j as int].len()
                        &&& id == start_j + o.pos
                        &&& o.machine < n_machines
                        &&& o.duration <= MAX_DURATION
                    },
                    total_duration as int == total_outer
                        + dur_prefix(ops@, job_start@, j as int, p as int),
                    total_outer as int <= start_j * (MAX_DURATION as int),
                    total_duration as int <= ops@.len() * (MAX_DURATION as int),
                decreases jv[j as int].len() - p,
            {
                let (machine, duration) = jobs[j][p];
                if machine >= n_machines {
                    return Err(InstanceError::MachineOutOfRange);
                }
                if duration > MAX_DURATION {
                    return Err(InstanceError::DurationTooLarge);
                }
                proof {
                    assert(lens.take(j + 1).drop_last() =~= lens.take(j as int));
                    lemma_sum_take_le(lens, j + 1);
                    assert(start_j + p + 1 <= n_ops_g);
                    assert((start_j + p) * (MAX_DURATION as int)
                        <= MAX_OPERATIONS as int * (MAX_DURATION as int)) by (nonlinear_arith)
                        requires 0 <= start_j + p <= MAX_OPERATIONS as int;
                }
                let ghost ops_before = ops@;
                ops.push(Operation { job: j, pos: p, machine, duration });
                proof {
                    lemma_dur_prefix_stable(ops_before, ops@, job_start@, j as int, p as int);
                    // One more operation of job `j` is accounted for.
                    assert(ops@[job_start@[j as int] + p] == (Operation {
                        job: j, pos: p, machine, duration,
                    }));
                    assert((start_j + p + 1) * (MAX_DURATION as int)
                        == (start_j + p) * (MAX_DURATION as int) + MAX_DURATION as int)
                        by (nonlinear_arith);
                }
                total_duration = total_duration + duration;
                p += 1;
            }
            job_lens.push(jobs[j].len());
            proof {
                assert forall|jj: int, pp: int|
                    0 <= jj < j + 1 && 0 <= pp < jv[jj].len() implies {
                    &&& 0 <= job_start@[jj] + pp < ops@.len()
                    &&& (#[trigger] ops@[job_start@[jj] + pp]) == (Operation {
                        job: jj as usize,
                        pos: pp as usize,
                        machine: jv[jj][pp].0,
                        duration: jv[jj][pp].1,
                    })
                } by {
                    if jj < j {
                        assert(job_start@[jj] == start_outer[jj]);
                        assert(ops_outer[start_outer[jj] + pp] == (Operation {
                            job: jj as usize,
                            pos: pp as usize,
                            machine: jv[jj][pp].0,
                            duration: jv[jj][pp].1,
                        }));
                        assert(start_outer[jj] + jv[jj].len() <= ops_outer.len());
                        assert(ops@[start_outer[jj] + pp] == ops_outer[start_outer[jj] + pp]);
                    } else {
                        assert(ops@[start_j + pp] == (Operation {
                            job: j,
                            pos: pp as usize,
                            machine: jv[j as int][pp].0,
                            duration: jv[j as int][pp].1,
                        }));
                    }
                }
                assert forall|id: int| 0 <= id < ops@.len() implies {
                    let o = #[trigger] ops@[id];
                    &&& (o.job as int) < j + 1
                    &&& (o.pos as int) < jv[o.job as int].len()
                    &&& id == job_start@[o.job as int] + o.pos
                    &&& o.machine < n_machines
                    &&& o.duration <= MAX_DURATION
                } by {
                    if id < start_j {
                        assert(ops@[id] == ops_outer[id]);
                        let o = ops_outer[id];
                        assert((o.job as int) < j);
                        assert(job_start@[o.job as int] == start_outer[o.job as int]);
                    }
                }
                assert(lens.take(j + 1).drop_last() =~= lens.take(j as int));
                let prev = Seq::new(j as nat,
                    |jj: int| dur_prefix(ops_outer, start_outer, jj, jv[jj].len() as int));
                let cur = Seq::new((j + 1) as nat,
                    |jj: int| dur_prefix(ops@, job_start@, jj, jv[jj].len() as int));
                assert forall|jj: int| 0 <= jj < j implies cur[jj] == prev[jj] by {
                    assert(job_start@[jj] == start_outer[jj]);
                    assert(start_outer[jj] + jv[jj].len() <= ops_outer.len());
                    lemma_dur_prefix_equal_entries(ops_outer, ops@, start_outer, job_start@,
                        jj, jv[jj].len() as int);
                }
                assert(cur.drop_last() =~= prev);
            }
            j += 1;
        }
        proof {
            assert(lens.take(jobs@.len() as int) =~= lens);
        }
        let ghost gops = ops@;
        let ghost gjs = job_start@;
        let inst = Instance { ops, job_lens, job_start, n_machines, total_duration };
        proof {
            assert forall|jjj: int, pp: int|
                0 <= jjj < jv.len() && 0 <= pp < jv[jjj].len() implies {
                &&& 0 <= #[trigger] inst.op_index(jjj, pp) < inst.n_ops()
                &&& inst.ops@[inst.op_index(jjj, pp)] == (Operation {
                    job: jjj as usize,
                    pos: pp as usize,
                    machine: jv[jjj][pp].0,
                    duration: jv[jjj][pp].1,
                })
            } by {
                assert(gops[gjs[jjj] + pp] == (Operation {
                    job: jjj as usize,
                    pos: pp as usize,
                    machine: jv[jjj][pp].0,
                    duration: jv[jjj][pp].1,
                }));
            }
            assert forall|id: int| 0 <= id < inst.n_ops() implies #[trigger] inst.op_wf(id) by {
                let o = gops[id];
                assert((o.job as int) < jobs@.len() && id == gjs[o.job as int] + o.pos);
            }
            assert(inst.job_lens_int() =~= lens);
            assert(inst.per_job_totals() =~= Seq::new(jobs@.len() as nat,
                |jj: int| dur_prefix(gops, gjs, jj, jv[jj].len() as int)));
            assert forall|jjj: int, pp: int|
                0 <= jjj < jv.len() && 0 <= pp < jv[jjj].len() implies {
                &&& (#[trigger] jv[jjj][pp]).0 < n_machines
                &&& jv[jjj][pp].1 <= MAX_DURATION
            } by {
                let o = gops[gjs[jjj] + pp];
                assert(o == (Operation {
                    job: jjj as usize,
                    pos: pp as usize,
                    machine: jv[jjj][pp].0,
                    duration: jv[jjj][pp].1,
                }));
                assert(o.machine < n_machines && o.duration <= MAX_DURATION);
            }
            assert(input_ok(jv, n_machines));
        }
        Ok(inst)
    }
}

/// `dur_prefix` reads the same entries from tables that agree below the
/// needed indices.
proof fn lemma_dur_prefix_equal_entries(ops1: Seq<Operation>, ops2: Seq<Operation>,
    js1: Seq<usize>, js2: Seq<usize>, j: int, c: int)
    requires
        0 <= j < js1.len() <= js2.len(),
        js1[j] == js2[j],
        js1[j] + c <= ops1.len() <= ops2.len(),
        forall|i: int| 0 <= i < ops1.len() ==> ops1[i] == ops2[i],
    ensures
        dur_prefix(ops1, js1, j, c) == dur_prefix(ops2, js2, j, c),
    decreases c,
{
    if c > 0 {
        lemma_dur_prefix_equal_entries(ops1, ops2, js1, js2, j, c - 1);
    }
}

} // verus!
