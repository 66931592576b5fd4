//! Crossover operators: recombine two parent genomes into offspring that are
//! again valid permutations of the operation set, with a shared repair pass.
use vstd::prelude::*;
use crate::instance::Instance;
use crate::individual::{Individual, ind_eq, valid_genome, valid_slot, job_of, pos_of, count_job,
    lemma_count_job_stable};
use crate::fitness::{zero_usize_vec, zero_bool_vec};
use crate::rng::rand_below;
use crate::sums::{seq_sum, lemma_sum_update, lemma_sum_nonneg, lemma_sum_const_bound};
use crate::population::next_ints;

verus! {

/// The genome-building state: `out` holds, for each job, its first `next[j]`
/// operations in precedence order, each exactly once.
pub open spec fn building(inst: Instance, out: Seq<usize>, next: Seq<usize>) -> bool {
    &&& next.len() as int == inst.n_jobs()
    &&& forall|jj: int| 0 <= jj < inst.n_jobs() ==>
        (#[trigger] next[jj]) as int <= inst.job_len(jj)
    &&& forall|jj: int| 0 <= jj < inst.n_jobs() ==>
        (#[trigger] next[jj]) as int == count_job(inst, out, jj, out.len() as int)
    &&& forall|kk: int| 0 <= kk < out.len() ==> #[trigger] valid_slot(inst, out, kk)
    &&& out.len() as int == seq_sum(next_ints(next))
}

/// Appends job `j`'s next unplaced operation to a partially built genome.
fn place_next(inst: &Instance, out: &mut Vec<usize>, next: &mut Vec<usize>, j: usize)
    requires
        inst.wf(),
        (j as int) < inst.n_jobs(),
        building(*inst, old(out)@, old(next)@),
        (old(next)@[j as int] as int) < inst.job_len(j as int),
    ensures
        building(*inst, final(out)@, final(next)@),
        final(out)@.len() == old(out)@.len() + 1,
        final(next)@ == old(next)@.update(j as int, (old(next)@[j as int] + 1) as usize),
        final(out)@ == old(out)@.push(final(out)@.last()),
        (final(out)@.last() as int) == inst.op_index(j as int, old(next)@[j as int] as int),
{
    let p = next[j];
    proof {
        assert(0 <= inst.op_index(j as int, p as int) < inst.n_ops());
    }
    let id = inst.job_start[j] + p;
    let ghost out_old = out@;
    let ghost next_old = next@;
    out.push(id);
    next[j] = p + 1;
    proof {
        let inst_g = *inst;
        let klen = out_old.len() as int;
        assert forall|jj: int, kk: int| 0 <= kk <= klen implies
            #[trigger] count_job(inst_g, out@, jj, kk) == count_job(inst_g, out_old, jj, kk) by {
            lemma_count_job_stable(inst_g, out_old, out@, jj, kk);
        }
        assert forall|kk: int| 0 <= kk < out@.len() implies
            #[trigger] valid_slot(inst_g, out@, kk) by {
            if kk < klen {
                assert(valid_slot(inst_g, out_old, kk));
                assert(pos_of(inst_g, out@, kk) == pos_of(inst_g, out_old, kk));
                assert(job_of(inst_g, out@, kk) == job_of(inst_g, out_old, kk));
            } else {
                assert(inst_g.ops@[id as int].job as int == j as int);
                assert(inst_g.ops@[id as int].pos as int == p as int);
                assert(count_job(inst_g, out@, j as int, klen) == next_old[j as int] as int);
            }
        }
        assert forall|jj: int| 0 <= jj < inst_g.n_jobs() implies
            (#[trigger] next@[jj]) as int == count_job(inst_g, out@, jj, out@.len() as int) by {
            assert(count_job(inst_g, out@, jj, out@.len() as int)
                == count_job(inst_g, out@, jj, klen)
                    + if job_of(inst_g, out@, klen) == jj { 1int } else { 0int });
        }
        assert(next_ints(next@) =~= next_ints(next_old).update(j as int,
            next_old[j as int] + 1));
        lemma_sum_update(next_ints(next_old), j as int, next_old[j as int] + 1);
    }
}


/// The genome prefix and per-job placement counts that the repair pass holds
/// after reading the first `i` raw slots: each slot naming an operation of a
/// job with work left contributes that job's next operation, every other slot
/// is dropped.
pub open spec fn repair_pass(inst: Instance, raw: Seq<usize>, i: int) -> (Seq<usize>, Seq<int>)
    decreases i,
{
    if i <= 0 {
        (Seq::<usize>::empty(), Seq::new(inst.n_jobs() as nat, |j: int| 0int))
    } else {
        let (out, next) = repair_pass(inst, raw, i - 1);
        let x = raw[i - 1] as int;
        let j = inst.ops@[x].job as int;
        if x < inst.n_ops() && next[j] < inst.job_len(j) {
            (out.push(inst.op_index(j, next[j]) as usize), next.update(j, next[j] + 1))
        } else {
            (out, next)
        }
    }
}

/// The operations of job `j` from position `c` on, appended in order.
pub open spec fn complete_job(inst: Instance, out: Seq<usize>, j: int, c: int) -> Seq<usize>
    decreases inst.job_len(j) - c,
{
    if 0 <= c < inst.job_len(j) {
        complete_job(inst, out.push(inst.op_index(j, c) as usize), j, c + 1)
    } else {
        out
    }
}

/// The still-missing operations of every job from `j` on, appended job by
/// job in position order.
pub open spec fn complete_all(inst: Instance, out: Seq<usize>, next: Seq<int>, j: int) -> Seq<usize>
    decreases inst.n_jobs() - j,
{
    if 0 <= j < inst.n_jobs() {
        complete_all(inst, complete_job(inst, out, j, next[j]), next, j + 1)
    } else {
        out
    }
}

/// What `repair` returns: the rebuilt prefix of the raw slots, followed by
/// every operation not yet placed, in job order.
pub open spec fn repair_spec(inst: Instance, raw: Seq<usize>) -> Seq<usize> {
    let (out, next) = repair_pass(inst, raw, raw.len() as int);
    complete_all(inst, out, next, 0)
}

/// `complete_all` from job `j` on reads only the counts of jobs `j` and
/// later.
proof fn lemma_complete_all_agrees(inst: Instance, out: Seq<usize>, n1: Seq<int>, n2: Seq<int>,
    j: int)
    requires
        forall|jj: int| j <= jj < inst.n_jobs() ==> n1[jj] == n2[jj],
    ensures
        complete_all(inst, out, n1, j) == complete_all(inst, out, n2, j),
    decreases inst.n_jobs() - j,
{
    if 0 <= j < inst.n_jobs() {
        lemma_complete_all_agrees(inst, complete_job(inst, out, j, n1[j]), n1, n2, j + 1);
    }
}

/// Repairs an arbitrary slot sequence into a valid genome. Reading left to
/// right, each slot naming an operation is reassigned to the next unplaced
/// operation of the same job (so the job sequence is kept while duplicate or
/// out-of-order positions are corrected); slots of exhausted jobs and slots
/// naming no operation are dropped, and any operations still missing are
/// appended in job order. The result is always a feasible permutation, and a
/// genome that is already valid passes through unchanged.
pub fn repair(inst: &Instance, raw: &Vec<usize>) -> (g: Vec<usize>)
    requires
        inst.wf(),
    ensures
        g@ == repair_spec(*inst, raw@),
        valid_genome(*inst, g@),
        valid_genome(*inst, raw@) ==> g@ == raw@,
{
    let n_jobs = inst.num_jobs();
    let mut next: Vec<usize> = zero_usize_vec(n_jobs);
    let mut out: Vec<usize> = Vec::new();
    proof {
        lemma_sum_nonneg(next_ints(next@));
        lemma_sum_const_bound(next_ints(next@), 0);
        assert(building(*inst, out@, next@));
        assert(out@ =~= repair_pass(*inst, raw@, 0).0);
        assert(next_ints(next@) =~= repair_pass(*inst, raw@, 0).1);
    }
    let mut i: usize = 0;
    while i < raw.len()
        invariant
            i <= raw.len(),
            next@.len() == n_jobs,
            building(*inst, out@, next@),
            out@ == repair_pass(*inst, raw@, i as int).0,
            next_ints(next@) == repair_pass(*inst, raw@, i as int).1,
            valid_genome(*inst, raw@) ==> out@ =~= raw@.take(i as int),
        decreases raw.len() - i,
    {
        let x = raw[i];
        let ghost out_before = out@;
        let ghost next_before = next@;
        if x < inst.num_ops() {
            let o = inst.ops[x];
            proof {
                assert(inst.op_wf(x as int));
            }
            if next[o.job] < inst.job_lens[o.job] {
                place_next(inst, &mut out, &mut next, o.job);
            }
        }
        proof {
            // the pass taken matches one unfolding of the repair pass
            assert(out@ =~= repair_pass(*inst, raw@, i + 1).0);
            assert(next_ints(next@) =~= repair_pass(*inst, raw@, i + 1).1);
            if valid_genome(*inst, raw@) {
                // a valid genome passes through slot for slot
                assert(valid_slot(*inst, raw@, i as int));
                let xj = job_of(*inst, raw@, i as int);
                let xp = pos_of(*inst, raw@, i as int);
                lemma_count_job_stable(*inst, out_before, raw@, xj, i as int);
                assert(next_before[xj] as int == xp);
                assert(inst.op_wf(raw@[i as int] as int));
                assert((xp as int) < inst.job_len(xj));
                assert(out@.last() as int == inst.op_index(xj, xp));
                assert(out@.last() == raw@[i as int]);
                assert(out@ =~= raw@.take(i + 1));
            }
        }
        i += 1;
    }
    proof {
        if valid_genome(*inst, raw@) {
            assert(raw@.take(raw@.len() as int) =~= raw@);
            crate::individual::lemma_valid_genome_complete(*inst, raw@);
            assert forall|jj: int| 0 <= jj < inst.n_jobs() implies
                (#[trigger] next@[jj]) as int == inst.job_len(jj) by {
                lemma_count_job_stable(*inst, out@, raw@, jj, raw@.len() as int);
            }
        }
    }
    proof {
        assert(complete_all(*inst, out@, next_ints(next@), 0) == repair_spec(*inst, raw@));
    }
    let mut j: usize = 0;
    while j < n_jobs
        invariant
            j <= n_jobs,
            next@.len() == n_jobs,
            n_jobs as int == inst.n_jobs(),
            building(*inst, out@, next@),
            forall|jj: int| 0 <= jj < j ==> (#[trigger] next@[jj]) as int == inst.job_len(jj),
            complete_all(*inst, out@, next_ints(next@), j as int) == repair_spec(*inst, raw@),
            valid_genome(*inst, raw@) ==> out@ =~= raw@,
            valid_genome(*inst, raw@) ==> forall|jj: int| 0 <= jj < inst.n_jobs() ==>
                (#[trigger] next@[jj]) as int == inst.job_len(jj),
        decreases n_jobs - j,
    {
        let ghost out_j0 = out@;
        let ghost next_j0 = next_ints(next@);
        while next[j] < inst.job_lens[j]
            invariant
                j < n_jobs,
                next@.len() == n_jobs,
                n_jobs as int == inst.n_jobs(),
                building(*inst, out@, next@),
                forall|jj: int| 0 <= jj < j ==> (#[trigger] next@[jj]) as int == inst.job_len(jj),
                forall|jj: int| 0 <= jj < next@.len() && jj != j ==>
                    (#[trigger] next@[jj]) as int == next_j0[jj],
                next_j0[j as int] <= next@[j as int] as int,
                complete_job(*inst, out@, j as int, next@[j as int] as int)
                    == complete_job(*inst, out_j0, j as int, next_j0[j as int]),
                valid_genome(*inst, raw@) ==> out@ =~= raw@,
                valid_genome(*inst, raw@) ==> forall|jj: int| 0 <= jj < inst.n_jobs() ==>
                    (#[trigger] next@[jj]) as int == inst.job_len(jj),
            decreases inst.job_len(j as int) - next@[j as int],
        {
            let ghost c = next@[j as int] as int;
            let ghost out_c = out@;
            place_next(inst, &mut out, &mut next, j);
            proof {
                assert(out@.last() as usize == (inst.op_index(j as int, c) as usize));
                assert(complete_job(*inst, out_c, j as int, c)
                    == complete_job(*inst, out@, j as int, c + 1));
                if valid_genome(*inst, raw@) {
                    assert(false);
                }
            }
        }
        proof {
            // job `j` is now complete: the appended block is exactly what the
            // specification's completion pass adds for it
            assert(complete_job(*inst, out@, j as int, next@[j as int] as int) == out@);
            assert(out@ == complete_job(*inst, out_j0, j as int, next_j0[j as int]));
            assert(complete_all(*inst, out_j0, next_j0, j as int)
                == complete_all(*inst, complete_job(*inst, out_j0, j as int, next_j0[j as int]),
                    next_j0, j + 1));
            lemma_complete_all_agrees(*inst, out@, next_ints(next@), next_j0, j + 1);
        }
        j += 1;
    }
    proof {
        assert forall|jj: int| 0 <= jj < inst.n_jobs() implies
            next_ints(next@)[jj] == inst.job_lens_int()[jj] by {}
        assert(next_ints(next@) =~= inst.job_lens_int());
        assert(out@.len() as int == inst.n_ops());
    }
    out
}

/// No-op crossover: hands both parents back unchanged. Used by the
/// random-search baseline to isolate the other operators' effect.
pub struct NoopCrossover {}

impl NoopCrossover {
    pub fn new() -> (r: NoopCrossover) {
        NoopCrossover {}
    }

    /// Returns exact copies of the two parents.
    pub fn apply(&self, a: &Individual, b: &Individual) -> (r: (Individual, Individual))
        ensures
            ind_eq(r.0, *a),
            ind_eq(r.1, *b),
    {
        (a.duplicate(), b.duplicate())
    }
}

/// Precedence-preserving crossover: copies a random cut region from one
/// parent into the child at the same positions, fills the remaining slots
/// with the other parent's operations in their relative order, skipping any
/// operation already placed, and passes the result through `repair`.
pub struct JsspCrossover {}

/// Operation `x` stands somewhere in the window `[lo, hi)` of `ga`.
pub open spec fn in_window(ga: Seq<usize>, lo: int, hi: int, x: int) -> bool {
    exists|k: int| lo <= k < hi && ((#[trigger] ga[k]) as int) == x
}

/// The window `[lo, hi)` of `ga` at its own positions, every other slot
/// holding no operation.
pub open spec fn window_raw(ga: Seq<usize>, lo: int, hi: int) -> Seq<usize> {
    Seq::new(ga.len(), |k: int| if lo <= k < hi { ga[k] } else { usize::MAX })
}

/// Which of the `n_ops` operations the window of `ga` already placed.
pub open spec fn window_placed(ga: Seq<usize>, lo: int, hi: int, n_ops: int) -> Seq<bool> {
    Seq::new(n_ops as nat, |x: int| in_window(ga, lo, hi, x))
}

/// First slot of `gb` at or after `bi` whose operation is not yet placed, or
/// the genome's length if every remaining one is.
pub open spec fn next_unplaced(gb: Seq<usize>, placed: Seq<bool>, bi: int) -> int
    decreases gb.len() - bi,
{
    if !(0 <= bi < gb.len()) {
        gb.len() as int
    } else if !placed[gb[bi] as int] {
        bi
    } else {
        next_unplaced(gb, placed, bi + 1)
    }
}

/// Fills every slot outside the window, from `k` on, with the next of `gb`'s
/// operations that is not yet placed, in `gb`'s order.
pub open spec fn wm_fill(gb: Seq<usize>, raw: Seq<usize>, placed: Seq<bool>, lo: int, hi: int,
    k: int, bi: int) -> Seq<usize>
    decreases raw.len() - k,
{
    if !(0 <= k < raw.len()) {
        raw
    } else if lo <= k < hi {
        wm_fill(gb, raw, placed, lo, hi, k + 1, bi)
    } else {
        let b2 = next_unplaced(gb, placed, bi);
        if b2 < gb.len() {
            wm_fill(gb, raw.update(k, gb[b2]), placed.update(gb[b2] as int, true),
                lo, hi, k + 1, b2 + 1)
        } else {
            wm_fill(gb, raw, placed, lo, hi, k + 1, b2)
        }
    }
}

/// The raw child of the precedence-preserving crossover: the window
/// `[lo, hi)` of `ga` kept at its own positions, the remaining slots filled
/// with `gb`'s other operations in `gb`'s order.
pub open spec fn merge_window(ga: Seq<usize>, gb: Seq<usize>, lo: int, hi: int, n_ops: int)
    -> Seq<usize> {
    wm_fill(gb, window_raw(ga, lo, hi), window_placed(ga, lo, hi, n_ops), lo, hi, 0, 0)
}

/// Builds one raw child from a window of `pa` filled from `pb`.
fn cross_window(inst: &Instance, pa: &Individual, pb: &Individual, lo: usize, hi: usize)
    -> (raw: Vec<usize>)
    requires
        inst.wf(),
        valid_genome(*inst, pa.genome@),
        valid_genome(*inst, pb.genome@),
        lo <= hi,
        hi as int <= inst.n_ops(),
    ensures
        raw@ == merge_window(pa.genome@, pb.genome@, lo as int, hi as int, inst.n_ops()),
{
    let n = inst.num_ops();
    let ghost ga = pa.genome@;
    let ghost gb = pb.genome@;
    let mut placed: Vec<bool> = zero_bool_vec(n);
    let mut raw: Vec<usize> = Vec::new();
    let mut k: usize = 0;
    while k < n
        invariant
            k <= n,
            n as int == inst.n_ops(),
            raw@.len() == k,
            placed@.len() == n,
            valid_genome(*inst, ga),
            forall|kk: int| 0 <= kk < k ==> (#[trigger] raw@[kk]) == window_raw(ga, lo as int,
                hi as int)[kk],
            forall|x: int| 0 <= x < n ==> (#[trigger] placed@[x]) == in_window(ga, lo as int,
                vstd::math::min(hi as int, k as int), x),
        decreases n - k,
    {
        let ghost placed_old = placed@;
        if lo <= k && k < hi {
            let x = pa.genome[k];
            proof {
                assert(valid_slot(*inst, ga, k as int));
            }
            placed[x] = true;
            raw.push(x);
        } else {
            raw.push(usize::MAX);
        }
        proof {
            let m0 = vstd::math::min(hi as int, k as int);
            let m1 = vstd::math::min(hi as int, k + 1);
            assert forall|x: int| 0 <= x < n implies
                (#[trigger] placed@[x]) == in_window(ga, lo as int, m1, x) by {
                if placed@[x] {
                    if placed_old[x] {
                        let kw = choose|kw: int| lo <= kw < m0 && ((#[trigger] ga[kw]) as int) == x;
                        assert(lo <= kw < m1 && (ga[kw] as int) == x);
                    } else {
                        assert(lo <= k < hi && (ga[k as int] as int) == x);
                        assert(lo <= (k as int) && (k as int) < m1);
                    }
                }
                if in_window(ga, lo as int, m1, x) {
                    let kw = choose|kw: int| lo <= kw < m1 && ((#[trigger] ga[kw]) as int) == x;
                    if kw < m0 {
                        assert(in_window(ga, lo as int, m0, x));
                        assert(placed_old[x]);
                    } else {
                        assert(kw == k as int && lo <= k && (k as int) < hi);
                    }
                    assert(placed@[x]);
                }
            }
        }
        k += 1;
    }
    proof {
        assert(raw@ =~= window_raw(ga, lo as int, hi as int));
        assert(placed@ =~= window_placed(ga, lo as int, hi as int, n as int)) by {
            assert forall|x: int| 0 <= x < n implies
                placed@[x] == window_placed(ga, lo as int, hi as int, n as int)[x] by {
                assert(vstd::math::min(hi as int, n as int) == hi as int);
            }
        }
    }
    let mut bi: usize = 0;
    let mut k: usize = 0;
    while k < n
        invariant
            k <= n,
            bi <= n,
            n as int == inst.n_ops(),
            raw@.len() == n,
            placed@.len() == n,
            valid_genome(*inst, gb),
            gb.len() == n,
            wm_fill(gb, raw@, placed@, lo as int, hi as int, k as int, bi as int)
                == merge_window(ga, gb, lo as int, hi as int, inst.n_ops()),
        decreases n - k,
    {
        if k < lo || k >= hi {
            let ghost bi0 = bi as int;
            while bi < n
                invariant
                    bi0 <= bi <= n,
                    n as int == inst.n_ops(),
                    placed@.len() == n,
                    valid_genome(*inst, gb),
                    gb.len() == n,
                    next_unplaced(gb, placed@, bi as int) == next_unplaced(gb, placed@, bi0),
                decreases n - bi,
            {
                let y = pb.genome[bi];
                proof {
                    assert(valid_slot(*inst, gb, bi as int));
                }
                if !placed[y] {
                    break;
                }
                bi += 1;
            }
            proof {
                // the scan stopped exactly at the specification's next
                // unplaced slot
                if (bi as int) < n as int {
                    assert(!placed@[gb[bi as int] as int]);
                    assert(next_unplaced(gb, placed@, bi as int) == bi as int);
                } else {
                    assert(next_unplaced(gb, placed@, bi as int) == gb.len() as int);
                }
            }
            if bi < n {
                let y = pb.genome[bi];
                proof {
                    assert(valid_slot(*inst, gb, bi as int));
                }
                let ghost raw_old = raw@;
                let ghost placed_old = placed@;
                placed[y] = true;
                raw[k] = y;
                proof {
                    assert(raw@ =~= raw_old.update(k as int, gb[bi as int]));
                    assert(placed@ =~= placed_old.update(gb[bi as int] as int, true));
                }
                bi += 1;
            }
        }
        k += 1;
    }
    raw
}

impl JsspCrossover {
    pub fn new() -> (r: JsspCrossover) {
        JsspCrossover {}
    }

    /// Two children of two feasible parents: each child inherits a random cut
    /// region of one parent and the rest of the other parent's order, and is
    /// repaired into a feasible permutation of the full operation set.
    pub fn apply(&self, inst: &Instance, a: &Individual, b: &Individual)
        -> (r: (Individual, Individual))
        requires
            inst.wf(),
            valid_genome(*inst, a.genome@),
            valid_genome(*inst, b.genome@),
        ensures
            exists|lo: int, hi: int| {
                &&& 0 <= lo <= hi <= inst.n_ops()
                &&& r.0.genome@ == repair_spec(*inst,
                    #[trigger] merge_window(a.genome@, b.genome@, lo, hi, inst.n_ops()))
                &&& r.1.genome@ == repair_spec(*inst,
                    merge_window(b.genome@, a.genome@, lo, hi, inst.n_ops()))
            },
            valid_genome(*inst, r.0.genome@),
            valid_genome(*inst, r.1.genome@),
            r.0.genome@.len() == inst.n_ops() && r.1.genome@.len() == inst.n_ops(),
            !r.0.evaluated && !r.1.evaluated,
            r.0.fitness == 0 && r.1.fitness == 0,
    {
        let n = inst.num_ops();
        let c1 = rand_below(n + 1);
        let c2 = rand_below(n + 1);
        let lo = if c1 <= c2 { c1 } else { c2 };
        let hi = if c1 <= c2 { c2 } else { c1 };
        let raw0 = cross_window(inst, a, b, lo, hi);
        let raw1 = cross_window(inst, b, a, lo, hi);
        let g0 = repair(inst, &raw0);
        let g1 = repair(inst, &raw1);
        proof {
            assert(g0@ == repair_spec(*inst,
                merge_window(a.genome@, b.genome@, lo as int, hi as int, inst.n_ops())));
            assert(g1@ == repair_spec(*inst,
                merge_window(b.genome@, a.genome@, lo as int, hi as int, inst.n_ops())));
        }
        (Individual::from_genome(g0), Individual::from_genome(g1))
    }
}

/// Midpoint crossover: the child takes the first half of its slots from one
/// parent and the second half from the other; duplicate and missing
/// operations are then corrected by the deterministic `repair` pass.
pub struct MidPoint {}

/// The raw midpoint split: the first half of the slots from one genome, the
/// second half from the other.
pub open spec fn half_split(ga: Seq<usize>, gb: Seq<usize>) -> Seq<usize> {
    Seq::new(ga.len(), |k: int| if k < ga.len() as int / 2 { ga[k] } else { gb[k] })
}

fn half_merge(inst: &Instance, pa: &Individual, pb: &Individual) -> (raw: Vec<usize>)
    requires
        inst.wf(),
        pa.genome@.len() == inst.n_ops(),
        pb.genome@.len() == inst.n_ops(),
    ensures
        raw@ == half_split(pa.genome@, pb.genome@),
{
    let n = inst.num_ops();
    let mid = n / 2;
    let mut raw: Vec<usize> = Vec::new();
    let mut k: usize = 0;
    while k < n
        invariant
            k <= n,
            n as int == inst.n_ops(),
            mid == n / 2,
            raw@.len() == k,
            pa.genome@.len() == inst.n_ops(),
            pb.genome@.len() == inst.n_ops(),
            forall|kk: int| 0 <= kk < k ==>
                (#[trigger] raw@[kk]) == half_split(pa.genome@, pb.genome@)[kk],
        decreases n - k,
    {
        if k < mid {
            raw.push(pa.genome[k]);
        } else {
            raw.push(pb.genome[k]);
        }
        k += 1;
    }
    proof {
        assert(raw@ =~= half_split(pa.genome@, pb.genome@));
    }
    raw
}

impl MidPoint {
    pub fn new() -> (r: MidPoint) {
        MidPoint {}
    }

    /// Two children split at the midpoint, each repaired into a feasible
    /// permutation of the full operation set. The operator draws nothing at
    /// random: each child is exactly the repair of the half-and-half merge of
    /// its parents' genomes.
    pub fn apply(&self, inst: &Instance, a: &Individual, b: &Individual)
        -> (r: (Individual, Individual))
        requires
            inst.wf(),
            valid_genome(*inst, a.genome@),
            valid_genome(*inst, b.genome@),
        ensures
            r.0.genome@ == repair_spec(*inst, half_split(a.genome@, b.genome@)),
            r.1.genome@ == repair_spec(*inst, half_split(b.genome@, a.genome@)),
            valid_genome(*inst, r.0.genome@),
            valid_genome(*inst, r.1.genome@),
            r.0.genome@.len() == inst.n_ops() && r.1.genome@.len() == inst.n_ops(),
            !r.0.evaluated && !r.1.evaluated,
            r.0.fitness == 0 && r.1.fitness == 0,
    {
        let raw0 = half_merge(inst, a, b);
        let raw1 = half_merge(inst, b, a);
        let g0 = repair(inst, &raw0);
        let g1 = repair(inst, &raw1);
        (Individual::from_genome(g0), Individual::from_genome(g1))
    }
}

} // verus!
