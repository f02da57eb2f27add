//! Planning for models whose memory forces equal per-sequence widths
//! (recurrent and hybrid): one batch serves either the decodes or the
//! prompts, never both, so a decode never cuts a prompt to one row.
//!
//! The cohort is chosen over every eligible demand first, then the members
//! are drawn from it, from a resume point that belongs to that cohort and is
//! a sequence id rather than an index (the demand list is rebuilt each plan).
//! A patience bounds how long decodes may keep the batch from a waiting
//! prompt.
use crate::plan_ordinary::min_int;
use crate::scheduler::{Allocation, Demand, Phase};
use vstd::prelude::*;

verus! {

/// Batches the decodes may take in a row while a prompt is waiting.
pub const PREFILL_PATIENCE: u32 = 8;

/// Whether the plan serves the prompts, and the decode run that follows.
pub open spec fn cohort_choice(ds: Seq<Demand>, decode_runs: u32) -> (bool, u32) {
    let ready_decodes = exists|i: int| 0 <= i < ds.len() && ds[i].phase == Phase::Decode;
    let ready_prefills = exists|i: int| 0 <= i < ds.len() && ds[i].phase != Phase::Decode;
    if !ready_decodes {
        (true, 0)
    } else if !ready_prefills {
        (false, 0)
    } else if decode_runs >= PREFILL_PATIENCE {
        (true, 0)
    } else {
        (false, (decode_runs + 1) as u32)
    }
}

/// Demand `i` belongs to the cohort being served.
pub open spec fn in_cohort(ds: Seq<Demand>, serve_prefills: bool, i: int) -> bool {
    (ds[i].phase != Phase::Decode) == serve_prefills
}

/// `cs` lists the cohort exactly once each, by ascending sequence id.
pub open spec fn sorted_cohort(ds: Seq<Demand>, serve_prefills: bool, cs: Seq<usize>) -> bool {
    &&& forall|p: int|
        0 <= p < cs.len() ==> #[trigger] cs[p] < ds.len() && in_cohort(ds, serve_prefills, cs[p] as int)
    &&& forall|i: int| 0 <= i < ds.len() && in_cohort(ds, serve_prefills, i) ==> cs.contains(i as usize)
    &&& forall|p: int, q: int|
        0 <= p < q < cs.len() ==> ds[#[trigger] cs[p] as int].sequence_id < ds[#[trigger] cs[q] as int].sequence_id
}

/// The first position from `p` on whose sequence id reaches `resume`, or 0.
pub open spec fn resume_position(ds: Seq<Demand>, cs: Seq<usize>, resume: u32, p: int) -> int
    decreases cs.len() - p,
{
    if p < 0 || p >= cs.len() {
        0
    } else if ds[cs[p] as int].sequence_id >= resume {
        p
    } else {
        resume_position(ds, cs, resume, p + 1)
    }
}

/// The members a plan takes, by ascending sequence id: `take` of them,
/// starting at position `first` and wrapping around.
pub open spec fn equal_selection(cs: Seq<usize>, first: int, take: int) -> Seq<usize> {
    let m = cs.len() as int;
    if first + take <= m {
        cs.subrange(first, first + take)
    } else {
        cs.subrange(0, first + take - m) + cs.subrange(first, m)
    }
}

/// The last member the rotation served.
pub open spec fn last_served(cs: Seq<usize>, first: int, take: int) -> usize {
    let m = cs.len() as int;
    if first + take - 1 < m {
        cs[first + take - 1]
    } else {
        cs[first + take - 1 - m]
    }
}

/// The fewest rows any of the listed demands has available.
pub open spec fn min_rows(ds: Seq<Demand>, xs: Seq<usize>) -> int
    decreases xs.len(),
{
    if xs.len() == 0 {
        0
    } else if xs.len() == 1 {
        ds[xs[0] as int].available_rows as int
    } else {
        min_int(min_rows(ds, xs.drop_last()), ds[xs.last() as int].available_rows as int)
    }
}

/// The common width: one for decodes, otherwise the smallest prompt and the
/// equal share of the capacity, whichever is less.
pub open spec fn equal_width(ds: Seq<Demand>, serve_prefills: bool, sel: Seq<usize>, c: int) -> int {
    if serve_prefills {
        min_int(min_rows(ds, sel), c / (sel.len() as int))
    } else {
        1
    }
}

/// The allocation of each selected demand at width `w`.
pub open spec fn allocations_at_width(ds: Seq<Demand>, sel: Seq<usize>, w: int) -> Seq<Allocation> {
    sel.map_values(
        |i: usize|
            Allocation {
                request_id: ds[i as int].request_id,
                sequence_id: ds[i as int].sequence_id,
                phase: ds[i as int].phase,
                rows: w as usize,
            },
    )
}

/// The fairness state an equal-width plan leaves behind.
pub struct EqualOutcome {
    pub allocations: Vec<Allocation>,
    pub serve_prefills: bool,
    pub decode_runs: u32,
    /// The sequence id the served cohort resumes from next time.
    pub resume: u32,
}

/// What an equal-width plan is, given the sorted cohort `cs`.
pub open spec fn equal_plan_with(
    ds: Seq<Demand>,
    decode_runs: u32,
    prefill_resume: u32,
    decode_resume: u32,
    c: usize,
    cs: Seq<usize>,
    out: EqualOutcome,
) -> bool {
    let (serve, runs) = cohort_choice(ds, decode_runs);
    let resume = if serve {
        prefill_resume
    } else {
        decode_resume
    };
    let first = resume_position(ds, cs, resume, 0);
    let take = min_int(c as int, cs.len() as int);
    let sel = equal_selection(cs, first, take);
    &&& sorted_cohort(ds, serve, cs)
    &&& cs.len() > 0
    &&& out.serve_prefills == serve
    &&& out.decode_runs == runs
    &&& out.resume == (if ds[last_served(cs, first, take) as int].sequence_id == u32::MAX {
        0u32
    } else {
        (ds[last_served(cs, first, take) as int].sequence_id + 1) as u32
    })
    &&& out.allocations@ == allocations_at_width(ds, sel, equal_width(ds, serve, sel, c as int))
}

/// Demand lists this planner accepts: prompts and decodes with distinct ids.
pub open spec fn equal_inputs(ds: Seq<Demand>) -> bool {
    &&& ds.len() > 0
    &&& forall|i: int|
        0 <= i < ds.len() ==> (#[trigger] ds[i]).phase == Phase::Prefill || ds[i].phase
            == Phase::Decode
    &&& forall|i: int| 0 <= i < ds.len() ==> (#[trigger] ds[i]).available_rows >= 1
    &&& forall|i: int, j: int|
        0 <= i < ds.len() && 0 <= j < ds.len() && i != j ==> ds[i].sequence_id
            != ds[j].sequence_id
}

fn choose_cohort(demands: &[Demand], decode_runs: u32) -> (r: (bool, u32))
    ensures
        r == cohort_choice(demands@, decode_runs),
{
    let mut ready_decodes = false;
    let mut ready_prefills = false;
    let mut i: usize = 0;
    while i < demands.len()
        invariant
            i <= demands@.len(),
            ready_decodes == exists|j: int| 0 <= j < i && demands@[j].phase == Phase::Decode,
            ready_prefills == exists|j: int| 0 <= j < i && demands@[j].phase != Phase::Decode,
        decreases demands@.len() - i,
    {
        if demands[i].phase == Phase::Decode {
            ready_decodes = true;
        } else {
            ready_prefills = true;
        }
        i += 1;
    }
    if !ready_decodes {
        (true, 0)
    } else if !ready_prefills {
        (false, 0)
    } else if decode_runs >= PREFILL_PATIENCE {
        (true, 0)
    } else {
        (false, decode_runs + 1)
    }
}

/// The cohort's indices by ascending sequence id.
fn sorted_members(demands: &[Demand], serve_prefills: bool) -> (cs: Vec<usize>)
    requires
        equal_inputs(demands@),
    ensures
        sorted_cohort(demands@, serve_prefills, cs@),
{
    let ghost ds = demands@;
    let n = demands.len();
    let mut cs: Vec<usize> = Vec::new();
    let mut bound: Option<u32> = None;
    loop
        invariant
            n == ds.len(),
            ds == demands@,
            equal_inputs(ds),
            cs@.len() <= n,
            forall|p: int|
                0 <= p < cs@.len() ==> #[trigger] cs@[p] < n && in_cohort(ds, serve_prefills, cs@[p] as int),
            forall|p: int, q: int|
                0 <= p < q < cs@.len() ==> ds[#[trigger] cs@[p] as int].sequence_id < ds[#[trigger] cs@[q] as int].sequence_id,
            bound is None <==> cs@.len() == 0,
            bound matches Some(b) ==> ds[cs@.last() as int].sequence_id == b,
            forall|i: int|
                0 <= i < n && in_cohort(ds, serve_prefills, i) ==> (bound matches Some(b) && ds[i].sequence_id <= b)
                    == cs@.contains(i as usize),
        ensures
            forall|p: int|
                0 <= p < cs@.len() ==> #[trigger] cs@[p] < n && in_cohort(ds, serve_prefills, cs@[p] as int),
            forall|p: int, q: int|
                0 <= p < q < cs@.len() ==> ds[#[trigger] cs@[p] as int].sequence_id < ds[#[trigger] cs@[q] as int].sequence_id,
            forall|i: int| 0 <= i < n && in_cohort(ds, serve_prefills, i) ==> cs@.contains(i as usize),
        decreases n - cs@.len(),
    {
        let mut best: Option<usize> = None;
        let mut j: usize = 0;
        while j < n
            invariant
                n == ds.len(),
                ds == demands@,
                j <= n,
                best matches Some(b) ==> b < n && in_cohort(ds, serve_prefills, b as int)
                    && (bound matches Some(lo) ==> ds[b as int].sequence_id > lo),
                forall|i: int|
                    0 <= i < j && in_cohort(ds, serve_prefills, i) && (bound matches Some(lo)
                        ==> ds[i].sequence_id > lo) ==> (best matches Some(b) && ds[b as int].sequence_id
                        <= ds[i].sequence_id),
            decreases n - j,
        {
            let d = &demands[j];
            let member = (d.phase != Phase::Decode) == serve_prefills;
            let above = match bound {
                None => true,
                Some(lo) => d.sequence_id > lo,
            };
            if member && above {
                match best {
                    None => {
                        best = Some(j);
                    },
                    Some(b) => {
                        if d.sequence_id < demands[b].sequence_id {
                            best = Some(j);
                        }
                    },
                }
            }
            j += 1;
        }
        match best {
            None => {
                proof {
                    assert forall|i: int| 0 <= i < n && in_cohort(ds, serve_prefills, i) implies cs@.contains(
                        i as usize,
                    ) by {
                        if bound is None {
                            assert(false);
                        }
                    }
                }
                break ;
            },
            Some(b) => {
                proof {
                    if cs@.contains(b) {
                        let p = choose|p: int| 0 <= p < cs@.len() && cs@[p] == b;
                        if p < cs@.len() - 1 {
                            assert(ds[cs@[p] as int].sequence_id < ds[cs@.last() as int].sequence_id);
                        }
                    }
                    assert(!cs@.contains(b));
                }
                let ghost old_cs = cs@;
                let ghost old_bound = bound;
                assert(forall|x: int|
                    0 <= x < n && #[trigger] in_cohort(ds, serve_prefills, x) ==> ((old_bound matches Some(lo)
                        && ds[x].sequence_id <= lo) == old_cs.contains(x as usize)));
                cs.push(b);
                bound = Some(demands[b].sequence_id);
                proof {
                    assert forall|i: int|
                        0 <= i < n && in_cohort(ds, serve_prefills, i) implies (bound matches Some(lo)
                        && ds[i].sequence_id <= lo) == cs@.contains(i as usize) by {
                        if i == b as int {
                            assert(cs@.last() == b);
                        } else if cs@.contains(i as usize) {
                            let p = choose|p: int| 0 <= p < cs@.len() && cs@[p] == i as usize;
                            assert(p < old_cs.len());
                            assert(old_cs.contains(i as usize));
                            assert(ds[i].sequence_id <= old_bound->0);
                        } else {
                            if old_cs.contains(i as usize) {
                                let p = choose|p: int| 0 <= p < old_cs.len() && old_cs[p] == i as usize;
                                assert(cs@[p] == i as usize);
                            }
                            assert(ds[i].sequence_id != ds[b as int].sequence_id);
                            assert(ds[b as int].sequence_id <= ds[i].sequence_id);
                        }
                    }
                    // The new member is unique, so the list cannot outgrow the demands.
                    lemma_distinct_bound(cs@, n);
                }
            },
        }
    }
    cs
}

/// A list of distinct indices below `n` has at most `n` entries.
pub proof fn lemma_distinct_bound(cs: Seq<usize>, n: usize)
    requires
        forall|p: int| 0 <= p < cs.len() ==> #[trigger] cs[p] < n,
        forall|p: int, q: int| 0 <= p < q < cs.len() ==> cs[p] != cs[q],
    ensures
        cs.len() <= n,
{
    let v = cs.map_values(|i: usize| i as int);
    assert(v.no_duplicates()) by {
        assert forall|p: int, q: int| 0 <= p < v.len() && 0 <= q < v.len() && p != q implies v[p]
            != v[q] by {
            if p < q {
                assert(cs[p] != cs[q]);
            } else {
                assert(cs[q] != cs[p]);
            }
        }
    }
    v.unique_seq_to_set();
    vstd::set_lib::lemma_int_range(0, n as int);
    assert(v.to_set().subset_of(vstd::set_lib::set_int_range(0, n as int))) by {
        assert forall|x: int| v.to_set().contains(x) implies vstd::set_lib::set_int_range(
            0,
            n as int,
        ).contains(x) by {
            let p = choose|p: int| 0 <= p < v.len() && v[p] == x;
            assert(cs[p] < n);
        }
    }
    vstd::set_lib::lemma_len_subset(v.to_set(), vstd::set_lib::set_int_range(0, n as int));
}

} // verus!

verus! {

fn resume_index(demands: &[Demand], cs: &Vec<usize>, resume: u32) -> (first: usize)
    requires
        forall|p: int| 0 <= p < cs@.len() ==> #[trigger] cs@[p] < demands@.len(),
    ensures
        first == resume_position(demands@, cs@, resume, 0),
        cs@.len() > 0 ==> first < cs@.len(),
{
    let mut p: usize = 0;
    while p < cs.len()
        invariant
            p <= cs@.len(),
            forall|q: int| 0 <= q < cs@.len() ==> #[trigger] cs@[q] < demands@.len(),
            resume_position(demands@, cs@, resume, 0) == resume_position(demands@, cs@, resume, p as int),
        decreases cs@.len() - p,
    {
        if demands[cs[p]].sequence_id >= resume {
            return p;
        }
        p += 1;
    }
    0
}

/// The window of `take` members from position `first`, by ascending id.
fn select_window(cs: &Vec<usize>, first: usize, take: usize) -> (sel: Vec<usize>)
    requires
        first < cs@.len(),
        1 <= take <= cs@.len(),
    ensures
        sel@ == equal_selection(cs@, first as int, take as int),
{
    let m = cs.len();
    let mut sel: Vec<usize> = Vec::new();
    let wraps = first > m - take;
    if wraps {
        let tail_len = take - (m - first);
        let mut q: usize = 0;
        while q < tail_len
            invariant
                q <= tail_len,
                tail_len <= first,
                first < m,
                m == cs@.len(),
                sel@ == cs@.subrange(0, q as int),
            decreases tail_len - q,
        {
            sel.push(cs[q]);
            q += 1;
        }
    }
    let stop = if wraps {
        m
    } else {
        first + take
    };
    let mut q: usize = first;
    let ghost prefix = sel@;
    while q < stop
        invariant
            first <= q <= stop,
            stop <= m,
            m == cs@.len(),
            sel@ == prefix + cs@.subrange(first as int, q as int),
        decreases stop - q,
    {
        sel.push(cs[q]);
        q += 1;
    }
    sel
}

/// The common width of the selected members.
fn common_width(demands: &[Demand], serve: bool, sel: &Vec<usize>, capacity: usize) -> (width: usize)
    requires
        sel@.len() >= 1,
        sel@.len() <= capacity,
        forall|p: int| 0 <= p < sel@.len() ==> #[trigger] sel@[p] < demands@.len(),
    ensures
        width == equal_width(demands@, serve, sel@, capacity as int),
{
    if !serve {
        return 1;
    }
    let ghost ds = demands@;
    let mut mn: usize = demands[sel[0]].available_rows;
    let mut k: usize = 1;
    proof {
        assert(sel@.subrange(0, 1).drop_last() =~= Seq::<usize>::empty());
    }
    while k < sel.len()
        invariant
            1 <= k <= sel@.len(),
            forall|p: int| 0 <= p < sel@.len() ==> #[trigger] sel@[p] < ds.len(),
            ds == demands@,
            mn == min_rows(ds, sel@.subrange(0, k as int)),
        decreases sel@.len() - k,
    {
        let a = demands[sel[k]].available_rows;
        proof {
            assert(sel@.subrange(0, k + 1).drop_last() =~= sel@.subrange(0, k as int));
        }
        if a < mn {
            mn = a;
        }
        k += 1;
    }
    assert(sel@.subrange(0, sel@.len() as int) =~= sel@);
    let share = capacity / sel.len();
    if mn < share {
        mn
    } else {
        share
    }
}

/// One allocation per selected member, all at `width`.
pub(crate) fn allocations_at(demands: &[Demand], sel: &Vec<usize>, width: usize) -> (allocations: Vec<Allocation>)
    requires
        forall|p: int| 0 <= p < sel@.len() ==> #[trigger] sel@[p] < demands@.len(),
    ensures
        allocations@ == allocations_at_width(demands@, sel@, width as int),
{
    let ghost ds = demands@;
    let mut allocations: Vec<Allocation> = Vec::new();
    let mut k: usize = 0;
    while k < sel.len()
        invariant
            k <= sel@.len(),
            forall|p: int| 0 <= p < sel@.len() ==> #[trigger] sel@[p] < ds.len(),
            ds == demands@,
            allocations@ == allocations_at_width(ds, sel@.subrange(0, k as int), width as int),
        decreases sel@.len() - k,
    {
        let d = &demands[sel[k]];
        allocations.push(
            Allocation {
                request_id: d.request_id.clone(),
                sequence_id: d.sequence_id,
                phase: d.phase,
                rows: width,
            },
        );
        proof {
            assert(sel@.subrange(0, k + 1) =~= sel@.subrange(0, k as int).push(sel@[k as int]));
        }
        k += 1;
    }
    assert(sel@.subrange(0, sel@.len() as int) =~= sel@);
    allocations
}

/// Plans one equal-width UBATCH: the chosen cohort's members from the resume
/// point, all at one common width, listed by ascending sequence id.
pub fn plan_equal(
    demands: &[Demand],
    decode_runs: u32,
    prefill_resume: u32,
    decode_resume: u32,
    capacity: usize,
) -> (out: EqualOutcome)
    requires
        equal_inputs(demands@),
        capacity > 0,
    ensures
        exists|cs: Seq<usize>|
            equal_plan_with(demands@, decode_runs, prefill_resume, decode_resume, capacity, cs, out),
{
    let ghost ds = demands@;
    let (serve, runs) = choose_cohort(demands, decode_runs);
    let cs = sorted_members(demands, serve);
    proof {
        // The chosen cohort is never empty.
        let ready_decodes = exists|i: int| 0 <= i < ds.len() && ds[i].phase == Phase::Decode;
        let i = if !ready_decodes {
            0
        } else if serve {
            choose|i: int| 0 <= i < ds.len() && ds[i].phase != Phase::Decode
        } else {
            choose|i: int| 0 <= i < ds.len() && ds[i].phase == Phase::Decode
        };
        assert(0 <= i < ds.len() && in_cohort(ds, serve, i));
        assert(cs@.contains(i as usize));
    }
    let m = cs.len();
    let resume = if serve {
        prefill_resume
    } else {
        decode_resume
    };
    let first = resume_index(demands, &cs, resume);
    let take = if capacity < m {
        capacity
    } else {
        m
    };
    let sel = select_window(&cs, first, take);
    proof {
        assert forall|p: int| 0 <= p < sel@.len() implies #[trigger] sel@[p] < ds.len() by {
            if first + take <= m {
                assert(sel@[p] == cs@[first + p]);
            } else if p < first + take - m {
                assert(sel@[p] == cs@[p]);
            } else {
                assert(sel@[p] == cs@[first + p - (first + take - m)]);
            }
        }
    }
    let width = common_width(demands, serve, &sel, capacity);
    // The resume point moves past the last member served.
    let last = if first < m - (take - 1) {
        cs[first + take - 1]
    } else {
        cs[first - (m - (take - 1))]
    };
    let last_id = demands[last].sequence_id;
    let next_resume = if last_id == u32::MAX {
        0
    } else {
        last_id + 1
    };
    let allocations = allocations_at(demands, &sel, width);
    let out = EqualOutcome { allocations, serve_prefills: serve, decode_runs: runs, resume: next_resume };
    assert(equal_plan_with(ds, decode_runs, prefill_resume, decode_resume, capacity, cs@, out));
    out
}

} // verus!
