//! Planning is a function of its inputs: the same fairness state, demands
//! and capacities always give the same allocations and the same next state.
use crate::plan_equal::{
    allocations_at_width, cohort_choice, equal_plan_with, equal_selection, equal_width, in_cohort, last_served,
    min_rows, resume_position, sorted_cohort, EqualOutcome,
};
use crate::plan_ordinary::{level_rows, ordinary_plan_spec, ordinary_rows_spec, prefill_part, prefill_selected};
use crate::rows::total;
use crate::scheduler::{plan_outcome, Allocation, Demand, OrdinaryLimits, Phase, PolicyState, SchedulerError};
use vstd::prelude::*;

verus! {

/// Pointwise no larger means a sum no larger.
proof fn lemma_total_mono(x: Seq<usize>, y: Seq<usize>)
    requires
        x.len() == y.len(),
        forall|i: int| 0 <= i < x.len() ==> x[i] <= y[i],
    ensures
        total(x) <= total(y),
    decreases x.len(),
{
    if x.len() > 0 {
        lemma_total_mono(x.drop_last(), y.drop_last());
    }
}

/// Pointwise no larger with the same sum means equal.
proof fn lemma_total_pointwise(x: Seq<usize>, y: Seq<usize>)
    requires
        x.len() == y.len(),
        forall|i: int| 0 <= i < x.len() ==> x[i] <= y[i],
        total(x) == total(y),
    ensures
        x == y,
    decreases x.len(),
{
    if x.len() > 0 {
        lemma_total_mono(x.drop_last(), y.drop_last());
        lemma_total_pointwise(x.drop_last(), y.drop_last());
        assert(x =~= x.drop_last().push(x.last()));
        assert(y =~= y.drop_last().push(y.last()));
    } else {
        assert(x =~= y);
    }
}

/// The ordinary planner's rows are determined: two water-fills of the same
/// demands with the same total are the same fill.
proof fn lemma_ordinary_rows_unique(
    ds: Seq<Demand>,
    s: int,
    c: usize,
    limits: OrdinaryLimits,
    r1: Seq<usize>,
    r2: Seq<usize>,
)
    requires
        ordinary_rows_spec(ds, s, c, limits, r1),
        ordinary_rows_spec(ds, s, c, limits, r2),
    ensures
        r1 == r2,
{
    let n = ds.len() as int;
    let (t1, p1) = choose|t: int, p: int| t >= 1 && 0 <= p <= n && level_rows(ds, s, c, limits, r1, t, p);
    let (t2, p2) = choose|t: int, p: int| t >= 1 && 0 <= p <= n && level_rows(ds, s, c, limits, r2, t, p);
    let x = prefill_part(ds, r1);
    let y = prefill_part(ds, r2);
    if t1 < t2 || (t1 == t2 && p1 <= p2) {
        assert forall|i: int| 0 <= i < x.len() implies x[i] <= y[i] by {
            if ds[i].phase == Phase::Prefill && prefill_selected(ds, s, c, limits, i) {
                assert(r1[i] == crate::plan_ordinary::min_int(
                    ds[i].available_rows as int,
                    t1 + if crate::scheduler::rank(s, n, i) < p1 { 1int } else { 0int },
                ));
                assert(r2[i] == crate::plan_ordinary::min_int(
                    ds[i].available_rows as int,
                    t2 + if crate::scheduler::rank(s, n, i) < p2 { 1int } else { 0int },
                ));
            } else if ds[i].phase == Phase::Prefill {
                assert(r1[i] == 0 && r2[i] == 0);
            }
        }
        lemma_total_pointwise(x, y);
    } else {
        assert forall|i: int| 0 <= i < y.len() implies y[i] <= x[i] by {
            if ds[i].phase == Phase::Prefill && prefill_selected(ds, s, c, limits, i) {
                assert(r1[i] == crate::plan_ordinary::min_int(
                    ds[i].available_rows as int,
                    t1 + if crate::scheduler::rank(s, n, i) < p1 { 1int } else { 0int },
                ));
                assert(r2[i] == crate::plan_ordinary::min_int(
                    ds[i].available_rows as int,
                    t2 + if crate::scheduler::rank(s, n, i) < p2 { 1int } else { 0int },
                ));
            } else if ds[i].phase == Phase::Prefill {
                assert(r1[i] == 0 && r2[i] == 0);
            }
        }
        lemma_total_pointwise(y, x);
    }
    assert forall|i: int| 0 <= i < n implies r1[i] == r2[i] by {
        if ds[i].phase == Phase::Prefill {
            assert(x[i] == y[i]);
        } else if ds[i].phase == Phase::Decode {
        } else {
            assert(!prefill_selected(ds, s, c, limits, i));
        }
    }
    assert(r1 =~= r2);
}

/// Two sequences of indices, each strictly increasing by sequence id and
/// holding the same indices, are the same sequence.
proof fn lemma_sorted_unique(ds: Seq<Demand>, a: Seq<usize>, b: Seq<usize>)
    requires
        forall|p: int| 0 <= p < a.len() ==> #[trigger] a[p] < ds.len(),
        forall|p: int| 0 <= p < b.len() ==> #[trigger] b[p] < ds.len(),
        forall|p: int, q: int|
            0 <= p < q < a.len() ==> ds[#[trigger] a[p] as int].sequence_id < ds[#[trigger] a[q] as int].sequence_id,
        forall|p: int, q: int|
            0 <= p < q < b.len() ==> ds[#[trigger] b[p] as int].sequence_id < ds[#[trigger] b[q] as int].sequence_id,
        forall|x: usize| a.contains(x) <==> b.contains(x),
    ensures
        a == b,
    decreases a.len(),
{
    if a.len() == 0 {
        if b.len() > 0 {
            assert(b.contains(b[0]));
        }
        assert(a =~= b);
    } else if b.len() == 0 {
        assert(a.contains(a[0]));
    } else {
        let x = a.last();
        let y = b.last();
        assert(a.contains(x));
        let q = choose|q: int| 0 <= q < b.len() && b[q] == x;
        assert(b.contains(y));
        let r = choose|r: int| 0 <= r < a.len() && a[r] == y;
        if q < b.len() - 1 {
            assert(ds[b[q] as int].sequence_id < ds[b[b.len() - 1] as int].sequence_id);
            if r < a.len() - 1 {
                assert(ds[a[r] as int].sequence_id < ds[a[a.len() - 1] as int].sequence_id);
            }
            assert(false);
        }
        assert(x == y);
        let a2 = a.drop_last();
        let b2 = b.drop_last();
        assert forall|z: usize| a2.contains(z) <==> b2.contains(z) by {
            if a2.contains(z) {
                let p = choose|p: int| 0 <= p < a2.len() && a2[p] == z;
                assert(ds[a[p] as int].sequence_id < ds[a[a.len() - 1] as int].sequence_id);
                assert(a.contains(z));
                let w = choose|w: int| 0 <= w < b.len() && b[w] == z;
                assert(w != b.len() - 1);
                assert(b2[w] == z);
            }
            if b2.contains(z) {
                let p = choose|p: int| 0 <= p < b2.len() && b2[p] == z;
                assert(ds[b[p] as int].sequence_id < ds[b[b.len() - 1] as int].sequence_id);
                assert(b.contains(z));
                let w = choose|w: int| 0 <= w < a.len() && a[w] == z;
                assert(w != a.len() - 1);
                assert(a2[w] == z);
            }
        }
        lemma_sorted_unique(ds, a2, b2);
        assert(a =~= a2.push(x));
        assert(b =~= b2.push(y));
    }
}

/// Planning is deterministic: from the same fairness state and revision,
/// the same demands and the same capacities and limits, any two outcomes
/// the planners may give are the same outcome — the same refusal, or the
/// same allocations and the same next state.
pub proof fn law_planning_is_deterministic(
    state: PolicyState,
    revision: u64,
    ds: Seq<Demand>,
    oc: usize,
    pc: usize,
    equal: bool,
    max_atomic: usize,
    exclusive: bool,
    limits: OrdinaryLimits,
    r1: Result<(Seq<Allocation>, PolicyState), SchedulerError>,
    r2: Result<(Seq<Allocation>, PolicyState), SchedulerError>,
)
    requires
        plan_outcome(state, revision, ds, oc, pc, equal, max_atomic, exclusive, limits, r1),
        plan_outcome(state, revision, ds, oc, pc, equal, max_atomic, exclusive, limits, r2),
    ensures
        r1 == r2,
{
    let n = ds.len() as int;
    if oc == 0 || pc == 0 || max_atomic == 0 || n == 0 || revision == u64::MAX
        || crate::scheduler::validation_fault(ds) is Some || crate::scheduler::has_atomic(ds) {
    } else if equal {
        let (cs1, o1) = choose|cs: Seq<usize>, o: EqualOutcome|
            equal_plan_with(ds, state.decode_runs, state.prefill_resume, state.decode_resume, pc, cs, o)
                && r1 == Ok::<(Seq<Allocation>, PolicyState), SchedulerError>(
                (o.allocations@, crate::scheduler::equal_stepped(state, n, o)),
            );
        let (cs2, o2) = choose|cs: Seq<usize>, o: EqualOutcome|
            equal_plan_with(ds, state.decode_runs, state.prefill_resume, state.decode_resume, pc, cs, o)
                && r2 == Ok::<(Seq<Allocation>, PolicyState), SchedulerError>(
                (o.allocations@, crate::scheduler::equal_stepped(state, n, o)),
            );
        let serve = crate::plan_equal::cohort_choice(ds, state.decode_runs).0;
        assert(sorted_cohort(ds, serve, cs1));
        assert(sorted_cohort(ds, serve, cs2));
        assert forall|z: usize| cs1.contains(z) <==> cs2.contains(z) by {
            if cs1.contains(z) {
                let p = choose|p: int| 0 <= p < cs1.len() && cs1[p] == z;
                assert(cs1[p] < ds.len());
            }
            if cs2.contains(z) {
                let p = choose|p: int| 0 <= p < cs2.len() && cs2[p] == z;
                assert(cs2[p] < ds.len());
            }
        }
        lemma_sorted_unique(ds, cs1, cs2);
    } else {
        let (out1, next1) = r1->Ok_0;
        let (out2, next2) = r2->Ok_0;
        let s = (state.cursor as int) % n;
        assert(ordinary_plan_spec(ds, s, oc, limits, out1));
        assert(ordinary_plan_spec(ds, s, oc, limits, out2));
        let rows1 = choose|rows: Seq<usize>|
            ordinary_rows_spec(ds, s, oc, limits, rows) && out1 == crate::plan_ordinary::allocations_in_rotation(
                ds,
                s,
                rows,
                n,
            );
        let rows2 = choose|rows: Seq<usize>|
            ordinary_rows_spec(ds, s, oc, limits, rows) && out2 == crate::plan_ordinary::allocations_in_rotation(
                ds,
                s,
                rows,
                n,
            );
        lemma_ordinary_rows_unique(ds, s, oc, limits, rows1, rows2);
    }
}

/// The demands an index list names, in its order.
pub open spec fn listed(ds: Seq<Demand>, cs: Seq<usize>) -> Seq<Demand> {
    cs.map_values(|i: usize| ds[i as int])
}

/// `perm` reorders `n` positions: each position appears exactly once.
pub open spec fn is_permutation(perm: Seq<int>, n: int) -> bool {
    &&& perm.len() == n
    &&& forall|i: int| 0 <= i < n ==> 0 <= #[trigger] perm[i] < n
    &&& forall|i: int, j: int| 0 <= i < n && 0 <= j < n && i != j ==> #[trigger] perm[i] != #[trigger] perm[j]
    &&& forall|j: int| 0 <= j < n ==> #[trigger] reached(perm, n, j)
}

/// Some position of `perm` holds `j`.
pub open spec fn reached(perm: Seq<int>, n: int, j: int) -> bool {
    exists|i: int| 0 <= i < n && #[trigger] perm[i] == j
}

/// Two demand lists, each strictly increasing by sequence id and holding the
/// same demands, are the same list.
proof fn lemma_sorted_demands_unique(a: Seq<Demand>, b: Seq<Demand>)
    requires
        forall|p: int, q: int| 0 <= p < q < a.len() ==> (#[trigger] a[p]).sequence_id < (#[trigger] a[q]).sequence_id,
        forall|p: int, q: int| 0 <= p < q < b.len() ==> (#[trigger] b[p]).sequence_id < (#[trigger] b[q]).sequence_id,
        forall|x: Demand| a.contains(x) <==> b.contains(x),
    ensures
        a == b,
    decreases a.len(),
{
    if a.len() == 0 {
        if b.len() > 0 {
            assert(b.contains(b[0]));
        }
        assert(a =~= b);
    } else if b.len() == 0 {
        assert(a.contains(a[0]));
    } else {
        let x = a.last();
        let y = b.last();
        assert(a.contains(x));
        let q = choose|q: int| 0 <= q < b.len() && b[q] == x;
        assert(b.contains(y));
        let r = choose|r: int| 0 <= r < a.len() && a[r] == y;
        if q < b.len() - 1 {
            assert(b[q].sequence_id < b[b.len() - 1].sequence_id);
            if r < a.len() - 1 {
                assert(a[r].sequence_id < a[a.len() - 1].sequence_id);
            }
            assert(false);
        }
        let a2 = a.drop_last();
        let b2 = b.drop_last();
        assert forall|z: Demand| a2.contains(z) <==> b2.contains(z) by {
            if a2.contains(z) {
                let p = choose|p: int| 0 <= p < a2.len() && a2[p] == z;
                assert(a[p].sequence_id < a[a.len() - 1].sequence_id);
                assert(a.contains(z));
                let w = choose|w: int| 0 <= w < b.len() && b[w] == z;
                assert(w != b.len() - 1);
                assert(b2[w] == z);
            }
            if b2.contains(z) {
                let p = choose|p: int| 0 <= p < b2.len() && b2[p] == z;
                assert(b[p].sequence_id < b[b.len() - 1].sequence_id);
                assert(b.contains(z));
                let w = choose|w: int| 0 <= w < a.len() && a[w] == z;
                assert(w != a.len() - 1);
                assert(a2[w] == z);
            }
        }
        lemma_sorted_demands_unique(a2, b2);
        assert(a =~= a2.push(x));
        assert(b =~= b2.push(y));
    }
}

/// The resume position depends only on the demands the cohort lists.
proof fn lemma_resume_listed(d1: Seq<Demand>, c1: Seq<usize>, d2: Seq<Demand>, c2: Seq<usize>, resume: u32, p: int)
    requires
        c1.len() == c2.len(),
        listed(d1, c1) == listed(d2, c2),
    ensures
        resume_position(d1, c1, resume, p) == resume_position(d2, c2, resume, p),
    decreases c1.len() - p,
{
    if 0 <= p < c1.len() {
        assert(listed(d1, c1)[p] == listed(d2, c2)[p]);
        assert(listed(d1, c1)[p] == d1[c1[p] as int]);
        assert(listed(d2, c2)[p] == d2[c2[p] as int]);
        lemma_resume_listed(d1, c1, d2, c2, resume, p + 1);
    }
}

/// The resume position is a position of the cohort, when there is one.
pub proof fn lemma_resume_range(ds: Seq<Demand>, cs: Seq<usize>, resume: u32, p: int)
    requires
        0 <= p,
        cs.len() > 0,
    ensures
        0 <= resume_position(ds, cs, resume, p) < cs.len(),
    decreases cs.len() - p,
{
    if p < cs.len() {
        lemma_resume_range(ds, cs, resume, p + 1);
    }
}

/// The fewest rows depends only on the demands listed.
proof fn lemma_min_rows_listed(d1: Seq<Demand>, x1: Seq<usize>, d2: Seq<Demand>, x2: Seq<usize>)
    requires
        x1.len() == x2.len(),
        listed(d1, x1) == listed(d2, x2),
    ensures
        min_rows(d1, x1) == min_rows(d2, x2),
    decreases x1.len(),
{
    if x1.len() > 0 {
        assert(listed(d1, x1.drop_last()) =~= listed(d1, x1).drop_last());
        assert(listed(d2, x2.drop_last()) =~= listed(d2, x2).drop_last());
        lemma_min_rows_listed(d1, x1.drop_last(), d2, x2.drop_last());
        assert(listed(d1, x1)[x1.len() - 1] == listed(d2, x2)[x2.len() - 1]);
        assert(listed(d1, x1)[0] == listed(d2, x2)[0]);
    }
}

/// What a sorted cohort lists: its demands by ascending sequence id.
proof fn lemma_cohort_listed(ds: Seq<Demand>, serve: bool, cs: Seq<usize>)
    requires
        sorted_cohort(ds, serve, cs),
        ds.len() <= usize::MAX,
    ensures
        forall|p: int, q: int|
            0 <= p < q < cs.len() ==> (#[trigger] listed(ds, cs)[p]).sequence_id < (
            #[trigger] listed(ds, cs)[q]).sequence_id,
        forall|x: Demand|
            listed(ds, cs).contains(x) <==> (ds.contains(x) && (x.phase != Phase::Decode) == serve),
{
    assert forall|p: int, q: int| 0 <= p < q < cs.len() implies (#[trigger] listed(ds, cs)[p]).sequence_id < (
    #[trigger] listed(ds, cs)[q]).sequence_id by {
        assert(ds[cs[p] as int].sequence_id < ds[cs[q] as int].sequence_id);
    }
    assert forall|x: Demand| listed(ds, cs).contains(x) <==> (ds.contains(x) && (x.phase != Phase::Decode)
        == serve) by {
        if listed(ds, cs).contains(x) {
            let p = choose|p: int| 0 <= p < cs.len() && listed(ds, cs)[p] == x;
            assert(cs[p] < ds.len() && in_cohort(ds, serve, cs[p] as int));
            assert(ds[cs[p] as int] == x);
        }
        if ds.contains(x) && (x.phase != Phase::Decode) == serve {
            let i = choose|i: int| 0 <= i < ds.len() && ds[i] == x;
            assert(in_cohort(ds, serve, i));
            assert(0 <= i < ds.len() && in_cohort(ds, serve, i) ==> cs.contains(i as usize));
            assert(cs.contains(i as usize));
            let p = choose|p: int| 0 <= p < cs.len() && cs[p] == i as usize;
            assert(listed(ds, cs)[p] == x);
        }
    }
}

/// The same demands in another order pass validation alike and hold the
/// same demands.
proof fn lemma_permuted(d1: Seq<Demand>, d2: Seq<Demand>, perm: Seq<int>)
    requires
        is_permutation(perm, d1.len() as int),
        d2.len() == d1.len(),
        forall|i: int| 0 <= i < d2.len() ==> #[trigger] d2[i] == d1[perm[i]],
        d1.len() > 0,
        crate::scheduler::validation_fault(d1) is None,
    ensures
        crate::scheduler::validation_fault(d2) is None,
        forall|x: Demand| d1.contains(x) <==> d2.contains(x),
        crate::scheduler::has_atomic(d1) == crate::scheduler::has_atomic(d2),
{
    let n = d1.len() as int;
    crate::scheduler::lemma_valid_iff_no_fault(d1);
    crate::scheduler::lemma_valid_iff_no_fault(d2);
    assert forall|x: Demand| d1.contains(x) <==> d2.contains(x) by {
        if d1.contains(x) {
            let j = choose|j: int| 0 <= j < n && d1[j] == x;
            assert(reached(perm, n, j));
            let i = choose|i: int| 0 <= i < n && #[trigger] perm[i] == j;
            assert(d2[i] == x);
        }
        if d2.contains(x) {
            let i = choose|i: int| 0 <= i < n && d2[i] == x;
            assert(d1[perm[i]] == x);
        }
    }
    assert forall|i: int| 0 <= i < n implies (#[trigger] d1[i]).compatibility@ == d1[0].compatibility@ by {
        assert(crate::scheduler::demand_fault(d1, i) is None);
    }
    assert forall|i: int| 0 <= i < n implies crate::scheduler::demand_fault(d2, i) is None by {
        let a = perm[i];
        assert(crate::scheduler::demand_fault(d1, a) is None);
        assert(d2[0] == d1[perm[0]]);
        assert(d1[perm[0]].compatibility@ == d1[0].compatibility@);
        if exists|j: int| 0 <= j < i && d2[j].sequence_id == d2[i].sequence_id {
            let j = choose|j: int| 0 <= j < i && d2[j].sequence_id == d2[i].sequence_id;
            let b = perm[j];
            assert(b != a);
            assert(d2[j] == d1[b]);
            if b < a {
                assert(crate::scheduler::demand_fault(d1, a) is None);
            } else {
                assert(crate::scheduler::demand_fault(d1, b) is None);
            }
        }
    }
    if crate::scheduler::has_atomic(d1) {
        let i = choose|i: int| 0 <= i < n && d1[i].atomic;
        assert(d1.contains(d1[i]));
        assert(d2.contains(d1[i]));
    }
    if crate::scheduler::has_atomic(d2) {
        let i = choose|i: int| 0 <= i < n && d2[i].atomic;
        assert(d2.contains(d2[i]));
        assert(d1.contains(d2[i]));
    }
}

/// Lists that hold the same demands make the same cohort choice.
proof fn lemma_same_choice(d1: Seq<Demand>, d2: Seq<Demand>, runs: u32)
    requires
        forall|x: Demand| d1.contains(x) <==> d2.contains(x),
    ensures
        cohort_choice(d1, runs) == cohort_choice(d2, runs),
{
    let ready_d1 = exists|i: int| 0 <= i < d1.len() && d1[i].phase == Phase::Decode;
    let ready_p1 = exists|i: int| 0 <= i < d1.len() && d1[i].phase != Phase::Decode;
    if ready_d1 {
        let i = choose|i: int| 0 <= i < d1.len() && d1[i].phase == Phase::Decode;
        assert(d1.contains(d1[i]));
        let k = choose|k: int| 0 <= k < d2.len() && d2[k] == d1[i];
    }
    if exists|i: int| 0 <= i < d2.len() && d2[i].phase == Phase::Decode {
        let i = choose|i: int| 0 <= i < d2.len() && d2[i].phase == Phase::Decode;
        assert(d2.contains(d2[i]));
        let k = choose|k: int| 0 <= k < d1.len() && d1[k] == d2[i];
    }
    if ready_p1 {
        let i = choose|i: int| 0 <= i < d1.len() && d1[i].phase != Phase::Decode;
        assert(d1.contains(d1[i]));
        let k = choose|k: int| 0 <= k < d2.len() && d2[k] == d1[i];
    }
    if exists|i: int| 0 <= i < d2.len() && d2[i].phase != Phase::Decode {
        let i = choose|i: int| 0 <= i < d2.len() && d2[i].phase != Phase::Decode;
        assert(d2.contains(d2[i]));
        let k = choose|k: int| 0 <= k < d1.len() && d1[k] == d2[i];
    }
}

/// Cohort lists naming the same demands select the same demands, and serve
/// the same last member.
proof fn lemma_selection_listed(
    d1: Seq<Demand>,
    cs1: Seq<usize>,
    d2: Seq<Demand>,
    cs2: Seq<usize>,
    first: int,
    take: int,
)
    requires
        cs1.len() == cs2.len(),
        listed(d1, cs1) == listed(d2, cs2),
        0 <= first < cs1.len(),
        1 <= take <= cs1.len(),
    ensures
        listed(d1, equal_selection(cs1, first, take)) == listed(d2, equal_selection(cs2, first, take)),
        d1[last_served(cs1, first, take) as int] == d2[last_served(cs2, first, take) as int],
{
    let m = cs1.len() as int;
    let sel1 = equal_selection(cs1, first, take);
    let sel2 = equal_selection(cs2, first, take);
    if first + take <= m {
        assert forall|k: int| 0 <= k < take implies listed(d1, sel1)[k] == listed(d2, sel2)[k] by {
            assert(listed(d1, cs1)[first + k] == listed(d2, cs2)[first + k]);
            assert(sel1[k] == cs1[first + k]);
            assert(sel2[k] == cs2[first + k]);
            assert(listed(d1, cs1)[first + k] == d1[cs1[first + k] as int]);
            assert(listed(d2, cs2)[first + k] == d2[cs2[first + k] as int]);
            assert(listed(d1, sel1)[k] == d1[sel1[k] as int]);
            assert(listed(d2, sel2)[k] == d2[sel2[k] as int]);
        }
    } else {
        assert forall|k: int| 0 <= k < sel1.len() implies listed(d1, sel1)[k] == listed(d2, sel2)[k] by {
            if k < first + take - m {
                assert(listed(d1, cs1)[k] == listed(d2, cs2)[k]);
                assert(sel1[k] == cs1[k]);
                assert(sel2[k] == cs2[k]);
                assert(listed(d1, cs1)[k] == d1[cs1[k] as int]);
                assert(listed(d2, cs2)[k] == d2[cs2[k] as int]);
            } else {
                let q = first + k - (first + take - m);
                assert(sel1[k] == cs1[q]);
                assert(sel2[k] == cs2[q]);
                assert(listed(d1, cs1)[q] == listed(d2, cs2)[q]);
                assert(listed(d1, cs1)[q] == d1[cs1[q] as int]);
                assert(listed(d2, cs2)[q] == d2[cs2[q] as int]);
            }
            assert(listed(d1, sel1)[k] == d1[sel1[k] as int]);
            assert(listed(d2, sel2)[k] == d2[sel2[k] as int]);
        }
    }
    assert(listed(d1, sel1) =~= listed(d2, sel2));
    if first + take - 1 < m {
        assert(listed(d1, cs1)[first + take - 1] == listed(d2, cs2)[first + take - 1]);
        assert(listed(d1, cs1)[first + take - 1] == d1[cs1[first + take - 1] as int]);
        assert(listed(d2, cs2)[first + take - 1] == d2[cs2[first + take - 1] as int]);
    } else {
        assert(listed(d1, cs1)[first + take - 1 - m] == listed(d2, cs2)[first + take - 1 - m]);
        assert(listed(d1, cs1)[first + take - 1 - m] == d1[cs1[first + take - 1 - m] as int]);
        assert(listed(d2, cs2)[first + take - 1 - m] == d2[cs2[first + take - 1 - m] as int]);
    }
}

/// Two equal-width outcomes over lists holding the same demands agree.
proof fn lemma_equal_outcomes_agree(
    d1: Seq<Demand>,
    d2: Seq<Demand>,
    runs: u32,
    prefill_resume: u32,
    decode_resume: u32,
    pc: usize,
    cs1: Seq<usize>,
    o1: EqualOutcome,
    cs2: Seq<usize>,
    o2: EqualOutcome,
)
    requires
        pc >= 1,
        d1.len() <= usize::MAX,
        d2.len() <= usize::MAX,
        forall|x: Demand| d1.contains(x) <==> d2.contains(x),
        equal_plan_with(d1, runs, prefill_resume, decode_resume, pc, cs1, o1),
        equal_plan_with(d2, runs, prefill_resume, decode_resume, pc, cs2, o2),
    ensures
        o1.allocations@ == o2.allocations@,
        o1.serve_prefills == o2.serve_prefills,
        o1.decode_runs == o2.decode_runs,
        o1.resume == o2.resume,
{
    lemma_same_choice(d1, d2, runs);
    let (serve, next_runs) = cohort_choice(d1, runs);
    lemma_cohort_listed(d1, serve, cs1);
    lemma_cohort_listed(d2, serve, cs2);
    assert forall|x: Demand| listed(d1, cs1).contains(x) <==> listed(d2, cs2).contains(x) by {
        assert(d1.contains(x) <==> d2.contains(x));
    }
    lemma_sorted_demands_unique(listed(d1, cs1), listed(d2, cs2));
    assert(cs1.len() == listed(d1, cs1).len());
    assert(cs2.len() == listed(d2, cs2).len());
    let resume = if serve {
        prefill_resume
    } else {
        decode_resume
    };
    lemma_resume_listed(d1, cs1, d2, cs2, resume, 0);
    lemma_resume_range(d1, cs1, resume, 0);
    let first = resume_position(d1, cs1, resume, 0);
    let take = crate::plan_ordinary::min_int(pc as int, cs1.len() as int);
    lemma_selection_listed(d1, cs1, d2, cs2, first, take);
    let sel1 = equal_selection(cs1, first, take);
    let sel2 = equal_selection(cs2, first, take);
    assert(sel1.len() == listed(d1, sel1).len());
    assert(sel2.len() == listed(d2, sel2).len());
    lemma_min_rows_listed(d1, sel1, d2, sel2);
    let w = equal_width(d1, serve, sel1, pc as int);
    assert(w == equal_width(d2, serve, sel2, pc as int));
    assert forall|k: int| 0 <= k < sel1.len() implies allocations_at_width(d1, sel1, w)[k]
        == allocations_at_width(d2, sel2, w)[k] by {
        assert(listed(d1, sel1)[k] == listed(d2, sel2)[k]);
    }
    assert(allocations_at_width(d1, sel1, w) =~= allocations_at_width(d2, sel2, w));
}

/// An equal-width plan does not depend on the order of the demand list:
/// the same valid demands, with nothing atomic among them, in any order,
/// planned from the same fairness state with the same capacities, give the
/// same allocations in the same order and the same next state.
pub proof fn law_equal_plans_ignore_demand_order(
    state: PolicyState,
    revision: u64,
    d1: Seq<Demand>,
    d2: Seq<Demand>,
    perm: Seq<int>,
    oc: usize,
    pc: usize,
    max_atomic: usize,
    exclusive: bool,
    limits: OrdinaryLimits,
    r1: Result<(Seq<Allocation>, PolicyState), SchedulerError>,
    r2: Result<(Seq<Allocation>, PolicyState), SchedulerError>,
)
    requires
        is_permutation(perm, d1.len() as int),
        d2.len() == d1.len(),
        d1.len() <= usize::MAX,
        forall|i: int| 0 <= i < d2.len() ==> #[trigger] d2[i] == d1[perm[i]],
        d1.len() > 0 ==> crate::scheduler::validation_fault(d1) is None,
        !crate::scheduler::has_atomic(d1),
        plan_outcome(state, revision, d1, oc, pc, true, max_atomic, exclusive, limits, r1),
        plan_outcome(state, revision, d2, oc, pc, true, max_atomic, exclusive, limits, r2),
    ensures
        r1 == r2,
{
    let n = d1.len() as int;
    if oc == 0 || pc == 0 || max_atomic == 0 || n == 0 || revision == u64::MAX {
        if n == 0 {
            assert(d1 =~= d2);
        }
    } else {
        lemma_permuted(d1, d2, perm);
        let (cs1, o1) = choose|cs: Seq<usize>, o: EqualOutcome|
            equal_plan_with(d1, state.decode_runs, state.prefill_resume, state.decode_resume, pc, cs, o)
                && r1 == Ok::<(Seq<Allocation>, PolicyState), SchedulerError>(
                (o.allocations@, crate::scheduler::equal_stepped(state, n, o)),
            );
        let (cs2, o2) = choose|cs: Seq<usize>, o: EqualOutcome|
            equal_plan_with(d2, state.decode_runs, state.prefill_resume, state.decode_resume, pc, cs, o)
                && r2 == Ok::<(Seq<Allocation>, PolicyState), SchedulerError>(
                (o.allocations@, crate::scheduler::equal_stepped(state, n, o)),
            );
        lemma_equal_outcomes_agree(
            d1,
            d2,
            state.decode_runs,
            state.prefill_resume,
            state.decode_resume,
            pc,
            cs1,
            o1,
            cs2,
            o2,
        );
    }
}

} // verus!
