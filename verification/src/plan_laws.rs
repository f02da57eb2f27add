//! What every plan keeps, whichever planner made it: each allocation is
//! drawn from a demand of the same request, sequence and phase, carries at
//! least one and at most all of the rows that demand has ready, and no
//! sequence appears twice in one batch.
use crate::plan_atomic::{
    atomic_of_width, candidate_at, count_where, equal_run, first_of, grow, grow_step,
    mixed_members, may_join, ordinary_compatible, rotation_pick, run_candidate, run_len,
    run_members, seed, first_atomic_from, Run,
};
use crate::plan_equal::{
    allocations_at_width, cohort_choice, equal_plan_with, equal_selection, equal_width, in_cohort,
    min_rows, resume_position, sorted_cohort, EqualOutcome,
};
use crate::plan_ordinary::{
    allocation_of, allocations_in_rotation, level_rows, min_int,
    ordinary_plan_spec, ordinary_rows_spec, prefill_selected,
};
use crate::scheduler::{
    demands_valid, has_atomic, index_at, lemma_rotation, lemma_valid_distinct,
    lemma_valid_iff_no_fault, plan_outcome, rank, row_shape_valid, Allocation,
    Demand, OrdinaryLimits, Phase, PolicyState,
};
use vstd::prelude::*;

verus! {

/// Allocation `a` carries between one and all of the rows `d` has ready,
/// for the same request, sequence and phase.
pub open spec fn drawn_from(a: Allocation, d: Demand) -> bool {
    &&& a.request_id == d.request_id
    &&& a.sequence_id == d.sequence_id
    &&& a.phase == d.phase
    &&& 1 <= a.rows <= d.available_rows
}

/// Allocation `a` is drawn from one of the demands.
pub open spec fn drawn_from_some(ds: Seq<Demand>, a: Allocation) -> bool {
    exists|i: int| 0 <= i < ds.len() && drawn_from(a, #[trigger] ds[i])
}

/// Every allocation is drawn from one of the demands, and no two
/// allocations belong to the same sequence.
pub open spec fn drawn_from_demands(ds: Seq<Demand>, out: Seq<Allocation>) -> bool {
    &&& forall|k: int| 0 <= k < out.len() ==> drawn_from_some(ds, #[trigger] out[k])
    &&& forall|k: int, l: int|
        0 <= k < l < out.len() ==> #[trigger] out[k].sequence_id != #[trigger] out[l].sequence_id
}

/// `idx` names, for each allocation, a distinct demand it is drawn from.
pub open spec fn drawn_via(ds: Seq<Demand>, out: Seq<Allocation>, idx: Seq<int>) -> bool {
    &&& idx.len() == out.len()
    &&& forall|k: int|
        0 <= k < out.len() ==> 0 <= #[trigger] idx[k] < ds.len() && drawn_from(out[k], ds[idx[k]])
    &&& forall|k: int, l: int| 0 <= k < l < out.len() ==> #[trigger] idx[k] != #[trigger] idx[l]
}

pub open spec fn distinct_ids(ds: Seq<Demand>) -> bool {
    forall|i: int, j: int|
        0 <= i < ds.len() && 0 <= j < ds.len() && i != j ==> ds[i].sequence_id != ds[j].sequence_id
}

proof fn lemma_drawn_via(ds: Seq<Demand>, out: Seq<Allocation>, idx: Seq<int>)
    requires
        drawn_via(ds, out, idx),
        distinct_ids(ds),
    ensures
        drawn_from_demands(ds, out),
{
    assert forall|k: int| 0 <= k < out.len() implies drawn_from_some(ds, #[trigger] out[k]) by {
        let i = idx[k];
        assert(drawn_from(out[k], ds[i]));
    }
    assert forall|k: int, l: int| 0 <= k < l < out.len() implies #[trigger] out[k].sequence_id
        != #[trigger] out[l].sequence_id by {
        assert(idx[k] != idx[l]);
        assert(ds[idx[k]].sequence_id != ds[idx[l]].sequence_id);
    }
}

/// Distinct members that each have at least `w >= 1` rows give a plan
/// drawn from the demands.
proof fn lemma_width_drawn(ds: Seq<Demand>, sel: Seq<usize>, w: int)
    requires
        1 <= w,
        distinct_ids(ds),
        forall|p: int|
            0 <= p < sel.len() ==> #[trigger] sel[p] < ds.len() && w <= ds[sel[p] as int].available_rows,
        forall|p: int, q: int| 0 <= p < q < sel.len() ==> #[trigger] sel[p] != #[trigger] sel[q],
    ensures
        drawn_from_demands(ds, allocations_at_width(ds, sel, w)),
{
    let out = allocations_at_width(ds, sel, w);
    let idx = Seq::new(sel.len(), |p: int| sel[p] as int);
    assert forall|k: int| 0 <= k < out.len() implies 0 <= #[trigger] idx[k] < ds.len() && drawn_from(
        out[k],
        ds[idx[k]],
    ) by {
        assert(w <= ds[sel[k] as int].available_rows);
    }
    assert forall|k: int, l: int| 0 <= k < l < out.len() implies #[trigger] idx[k] != #[trigger] idx[l] by {
        assert(sel[k] != sel[l]);
    }
    lemma_drawn_via(ds, out, idx);
}

proof fn lemma_min_rows(ds: Seq<Demand>, xs: Seq<usize>)
    requires
        xs.len() >= 1,
        forall|p: int|
            0 <= p < xs.len() ==> #[trigger] xs[p] < ds.len() && ds[xs[p] as int].available_rows >= 1,
    ensures
        1 <= min_rows(ds, xs),
        forall|p: int| 0 <= p < xs.len() ==> min_rows(ds, xs) <= ds[#[trigger] xs[p] as int].available_rows,
    decreases xs.len(),
{
    if xs.len() > 1 {
        let init = xs.drop_last();
        assert forall|p: int| 0 <= p < init.len() implies #[trigger] init[p] < ds.len()
            && ds[init[p] as int].available_rows >= 1 by {
            assert(init[p] == xs[p]);
        }
        lemma_min_rows(ds, init);
        assert forall|p: int| 0 <= p < xs.len() implies min_rows(ds, xs)
            <= ds[#[trigger] xs[p] as int].available_rows by {
            if p < xs.len() - 1 {
                assert(init[p] == xs[p]);
            }
        }
    }
}

pub(crate) proof fn lemma_resume_position(ds: Seq<Demand>, cs: Seq<usize>, resume: u32, p: int)
    requires
        cs.len() > 0,
        p >= 0,
    ensures
        0 <= resume_position(ds, cs, resume, p) < cs.len(),
    decreases cs.len() - p,
{
    if p < cs.len() && ds[cs[p] as int].sequence_id < resume {
        lemma_resume_position(ds, cs, resume, p + 1);
    }
}

/// The members an equal-width plan takes are distinct members of its cohort.
pub(crate) proof fn lemma_selection(ds: Seq<Demand>, serve: bool, cs: Seq<usize>, first: int, take: int)
    requires
        sorted_cohort(ds, serve, cs),
        0 <= first < cs.len(),
        1 <= take <= cs.len(),
    ensures
        equal_selection(cs, first, take).len() == take,
        forall|q: int|
            0 <= q < take ==> #[trigger] equal_selection(cs, first, take)[q] < ds.len() && in_cohort(
                ds,
                serve,
                equal_selection(cs, first, take)[q] as int,
            ),
        forall|q: int, r: int|
            0 <= q < r < take ==> #[trigger] equal_selection(cs, first, take)[q]
                != #[trigger] equal_selection(cs, first, take)[r],
{
    let m = cs.len() as int;
    let sel = equal_selection(cs, first, take);
    let a = first + take - m;
    let pos = |q: int|
        if first + take <= m {
            first + q
        } else if q < a {
            q
        } else {
            first + q - a
        };
    assert forall|q: int| 0 <= q < take implies sel[q] == cs[pos(q)] && 0 <= pos(q) < m by {}
    assert(sel.len() == take);
    assert forall|q: int|
        0 <= q < take implies #[trigger] sel[q] < ds.len() && in_cohort(ds, serve, sel[q] as int) by {
        assert(sel[q] == cs[pos(q)]);
    }
    assert forall|q: int, r: int| 0 <= q < r < take implies #[trigger] sel[q] != #[trigger] sel[r] by {
        let pq = pos(q);
        let pr = pos(r);
        assert(sel[q] == cs[pq]);
        assert(sel[r] == cs[pr]);
        assert(pq != pr);
        if pq < pr {
            assert(ds[cs[pq] as int].sequence_id < ds[cs[pr] as int].sequence_id);
        } else {
            assert(ds[cs[pr] as int].sequence_id < ds[cs[pq] as int].sequence_id);
        }
    }
}

/// An equal-width plan over valid demands draws from them.
proof fn lemma_equal_drawn(
    ds: Seq<Demand>,
    decode_runs: u32,
    prefill_resume: u32,
    decode_resume: u32,
    c: usize,
    cs: Seq<usize>,
    o: EqualOutcome,
)
    requires
        demands_valid(ds),
        c >= 1,
        equal_plan_with(ds, decode_runs, prefill_resume, decode_resume, c, cs, o),
    ensures
        drawn_from_demands(ds, o.allocations@),
{
    lemma_valid_distinct(ds);
    let (serve, runs) = cohort_choice(ds, decode_runs);
    let resume = if serve {
        prefill_resume
    } else {
        decode_resume
    };
    let first = resume_position(ds, cs, resume, 0);
    let take = min_int(c as int, cs.len() as int);
    let sel = equal_selection(cs, first, take);
    lemma_resume_position(ds, cs, resume, 0);
    lemma_selection(ds, serve, cs, first, take);
    assert forall|p: int| 0 <= p < sel.len() implies #[trigger] sel[p] < ds.len()
        && ds[sel[p] as int].available_rows >= 1 by {
        assert(row_shape_valid(ds[sel[p] as int]));
    }
    lemma_min_rows(ds, sel);
    let w = equal_width(ds, serve, sel, c as int);
    if serve {
        assert(c as int / take >= 1) by (nonlinear_arith)
            requires
                1 <= take <= c,
        ;
    }
    assert forall|p: int| 0 <= p < sel.len() implies #[trigger] sel[p] < ds.len() && w
        <= ds[sel[p] as int].available_rows by {
        assert(row_shape_valid(ds[sel[p] as int]));
    }
    lemma_width_drawn(ds, sel, w);
}

/// The indices `rotation_pick` takes are distinct, in range, satisfy the
/// predicate, and come in rotation order from `s`.
proof fn lemma_rotation_pick(ds: Seq<Demand>, s: int, k: int, f: spec_fn(int) -> bool)
    requires
        ds.len() <= usize::MAX,
        0 <= s < ds.len(),
        0 <= k <= ds.len(),
    ensures
        forall|p: int|
            0 <= p < rotation_pick(ds, s, k, f).len() ==> {
                let i = #[trigger] rotation_pick(ds, s, k, f)[p] as int;
                &&& 0 <= i < ds.len()
                &&& f(i)
                &&& rank(s, ds.len() as int, i) < k
            },
        forall|p: int, q: int|
            0 <= p < q < rotation_pick(ds, s, k, f).len() ==> rank(
                s,
                ds.len() as int,
                #[trigger] rotation_pick(ds, s, k, f)[p] as int,
            ) < rank(s, ds.len() as int, #[trigger] rotation_pick(ds, s, k, f)[q] as int),
    decreases k,
{
    lemma_rotation(s, ds.len() as int);
    if k > 0 {
        lemma_rotation_pick(ds, s, k - 1, f);
        let n = ds.len() as int;
        let prior = rotation_pick(ds, s, k - 1, f);
        let cur = rotation_pick(ds, s, k, f);
        let i = index_at(s, n, k - 1);
        assert(0 <= i < n && rank(s, n, i) == k - 1);
        assert forall|p: int| 0 <= p < cur.len() implies {
            let j = #[trigger] cur[p] as int;
            &&& 0 <= j < n
            &&& f(j)
            &&& rank(s, n, j) < k
        } by {
            if p < prior.len() {
                assert(cur[p] == prior[p]);
            } else {
                assert(cur[p] == i as usize);
            }
        }
        assert forall|p: int, q: int| 0 <= p < q < cur.len() implies rank(s, n, #[trigger] cur[p] as int)
            < rank(s, n, #[trigger] cur[q] as int) by {
            assert(cur[p] == prior[p]);
            if q < prior.len() {
                assert(cur[q] == prior[q]);
            } else {
                assert(cur[q] == i as usize);
            }
        }
    }
}

proof fn lemma_pick_distinct(ds: Seq<Demand>, s: int, f: spec_fn(int) -> bool)
    requires
        ds.len() <= usize::MAX,
        0 <= s < ds.len(),
    ensures
        forall|p: int, q: int|
            0 <= p < q < rotation_pick(ds, s, ds.len() as int, f).len() ==> #[trigger] rotation_pick(
                ds,
                s,
                ds.len() as int,
                f,
            )[p] != #[trigger] rotation_pick(ds, s, ds.len() as int, f)[q],
{
    lemma_rotation_pick(ds, s, ds.len() as int, f);
}

/// Where the first atomic demand of the rotation stands.
proof fn lemma_first_atomic(ds: Seq<Demand>, s: int, k: int)
    requires
        0 <= s < ds.len(),
        0 <= k <= ds.len(),
    ensures
        k <= first_atomic_from(ds, s, k) <= ds.len(),
        first_atomic_from(ds, s, k) < ds.len() ==> ds[index_at(
            s,
            ds.len() as int,
            first_atomic_from(ds, s, k),
        )].atomic,
        first_atomic_from(ds, s, k) == ds.len() ==> forall|p: int|
            k <= p < ds.len() ==> !ds[#[trigger] index_at(s, ds.len() as int, p)].atomic,
    decreases ds.len() - k,
{
    if k < ds.len() && !ds[index_at(s, ds.len() as int, k)].atomic {
        lemma_first_atomic(ds, s, k + 1);
    }
}

/// With an atomic demand present, the seed is one.
pub(crate) proof fn lemma_seed(ds: Seq<Demand>, s: int)
    requires
        0 <= s < ds.len(),
        has_atomic(ds),
    ensures
        0 <= seed(ds, s) < ds.len(),
        ds[seed(ds, s)].atomic,
{
    lemma_rotation(s, ds.len() as int);
    lemma_first_atomic(ds, s, 0);
    let i = choose|i: int| 0 <= i < ds.len() && ds[i].atomic;
    if first_atomic_from(ds, s, 0) == ds.len() {
        assert(!ds[index_at(s, ds.len() as int, rank(s, ds.len() as int, i))].atomic);
    }
}

/// A mixed speculative round over valid demands draws from them.
proof fn lemma_mixed_drawn(ds: Seq<Demand>, s: int, c: int, max_atomic: int, exclusive: bool)
    requires
        demands_valid(ds),
        ds.len() <= usize::MAX,
        0 <= s < ds.len(),
        has_atomic(ds),
    ensures
        drawn_from_demands(
            ds,
            allocations_at_width(
                ds,
                mixed_members(ds, s, c, ds[seed(ds, s)].available_rows as int, max_atomic, exclusive),
                ds[seed(ds, s)].available_rows as int,
            ),
        ),
{
    lemma_valid_distinct(ds);
    lemma_seed(ds, s);
    let n = ds.len() as int;
    let w = ds[seed(ds, s)].available_rows as int;
    assert(row_shape_valid(ds[seed(ds, s)]));
    let lim = crate::plan_atomic::atomic_limit(c, w, max_atomic);
    let a = min_int(count_where(ds, s, n, atomic_of_width(ds, w)), lim);
    let room = (c - a * w) / w;
    let fa = first_of(ds, s, ordinary_compatible(ds, w, exclusive), room);
    let fb = first_of(ds, s, atomic_of_width(ds, w), lim);
    let pa = rotation_pick(ds, s, n, fa);
    let pb = rotation_pick(ds, s, n, fb);
    let members = mixed_members(ds, s, c, w, max_atomic, exclusive);
    assert(members == pa + pb);
    lemma_rotation_pick(ds, s, n, fa);
    lemma_rotation_pick(ds, s, n, fb);
    lemma_pick_distinct(ds, s, fa);
    lemma_pick_distinct(ds, s, fb);
    assert forall|p: int| 0 <= p < members.len() implies #[trigger] members[p] < ds.len() && w
        <= ds[members[p] as int].available_rows by {
        let i = members[p] as int;
        assert(row_shape_valid(ds[i]));
        if p < pa.len() {
            assert(members[p] == pa[p]);
            assert(fa(i));
        } else {
            assert(members[p] == pb[p - pa.len()]);
            assert(fb(i));
        }
    }
    assert forall|p: int, q: int| 0 <= p < q < members.len() implies #[trigger] members[p]
        != #[trigger] members[q] by {
        if q < pa.len() {
            assert(members[p] == pa[p] && members[q] == pa[q]);
        } else if p >= pa.len() {
            assert(members[p] == pb[p - pa.len()] && members[q] == pb[q - pa.len()]);
        } else {
            assert(members[p] == pa[p] && members[q] == pb[q - pa.len()]);
            assert(fa(members[p] as int));
            assert(fb(members[q] as int));
        }
    }
    lemma_width_drawn(ds, members, w);
}

/// Every id of a growing run has a candidate.
proof fn lemma_grow(
    ds: Seq<Demand>,
    w: int,
    exclusive: bool,
    max_seq: int,
    max_atomic: int,
    g: Run,
)
    requires
        g.low <= g.high,
        forall|id: int| g.low <= id <= g.high ==> (#[trigger] candidate_at(ds, w, exclusive, id)) is Some,
    ensures
        grow(ds, w, exclusive, max_seq, max_atomic, g).low <= grow(
            ds,
            w,
            exclusive,
            max_seq,
            max_atomic,
            g,
        ).high,
        forall|id: int|
            grow(ds, w, exclusive, max_seq, max_atomic, g).low <= id <= grow(
                ds,
                w,
                exclusive,
                max_seq,
                max_atomic,
                g,
            ).high ==> (#[trigger] candidate_at(ds, w, exclusive, id)) is Some,
    decreases max_seq - run_len(g),
{
    if run_len(g) < max_seq && (g.lower_open || g.upper_open) {
        let (g1, added) = grow_step(ds, w, exclusive, max_seq, max_atomic, g);
        assert(g1.low <= g1.high);
        assert forall|id: int| g1.low <= id <= g1.high implies (#[trigger] candidate_at(
            ds,
            w,
            exclusive,
            id,
        )) is Some by {
            if id < g.low {
                assert(may_join(ds, w, exclusive, max_atomic, g.atomic_count, g.low - 1));
            } else if id > g.high {
                let lower = if g.lower_open && may_join(
                    ds,
                    w,
                    exclusive,
                    max_atomic,
                    g.atomic_count,
                    g.low - 1,
                ) {
                    g.atomic_count + crate::plan_atomic::atomic_at(ds, w, exclusive, g.low - 1)
                } else {
                    g.atomic_count
                };
                assert(may_join(ds, w, exclusive, max_atomic, lower, g.high + 1));
            }
        }
        if added && run_len(g) < run_len(g1) <= max_seq {
            lemma_grow(ds, w, exclusive, max_seq, max_atomic, g1);
        }
    }
}

/// The candidate for an id is a valid index of that id and may join.
proof fn lemma_candidate(ds: Seq<Demand>, w: int, exclusive: bool, id: int)
    requires
        candidate_at(ds, w, exclusive, id) is Some,
    ensures
        ({
            let i = candidate_at(ds, w, exclusive, id)->0;
            &&& 0 <= i < ds.len()
            &&& ds[i].sequence_id == id
            &&& run_candidate(ds, w, exclusive, i)
        }),
{
}

/// An equal-width speculative round over valid demands draws from them.
proof fn lemma_run_drawn(ds: Seq<Demand>, s: int, c: int, max_atomic: int, exclusive: bool)
    requires
        demands_valid(ds),
        ds.len() <= usize::MAX,
        0 <= s < ds.len(),
        has_atomic(ds),
    ensures
        drawn_from_demands(
            ds,
            allocations_at_width(
                ds,
                run_members(
                    ds,
                    ds[seed(ds, s)].available_rows as int,
                    exclusive,
                    equal_run(ds, s, c, max_atomic, exclusive),
                ),
                ds[seed(ds, s)].available_rows as int,
            ),
        ),
{
    lemma_valid_distinct(ds);
    lemma_seed(ds, s);
    let f = seed(ds, s);
    let w = ds[f].available_rows as int;
    let id = ds[f].sequence_id as int;
    assert(row_shape_valid(ds[f]));
    assert(run_candidate(ds, w, exclusive, f));
    assert(candidate_at(ds, w, exclusive, id) is Some);
    let g0 = Run { low: id, high: id, lower_open: true, upper_open: true, atomic_count: 1 };
    lemma_grow(ds, w, exclusive, c / w, max_atomic, g0);
    let g = equal_run(ds, s, c, max_atomic, exclusive);
    assert(g == grow(ds, w, exclusive, c / w, max_atomic, g0));
    let members = run_members(ds, w, exclusive, g);
    assert(members.len() == run_len(g));
    assert forall|p: int| 0 <= p < members.len() implies #[trigger] members[p] < ds.len() && w
        <= ds[members[p] as int].available_rows by {
        assert(g.low <= g.low + p <= g.high);
        lemma_candidate(ds, w, exclusive, g.low + p);
        let i = candidate_at(ds, w, exclusive, g.low + p)->0;
        assert(members[p] == i as usize);
        assert(row_shape_valid(ds[i]));
    }
    assert forall|p: int, q: int| 0 <= p < q < members.len() implies #[trigger] members[p]
        != #[trigger] members[q] by {
        assert(g.low <= g.low + p <= g.high);
        assert(g.low <= g.low + q <= g.high);
        lemma_candidate(ds, w, exclusive, g.low + p);
        lemma_candidate(ds, w, exclusive, g.low + q);
        assert(members[p] == candidate_at(ds, w, exclusive, g.low + p)->0 as usize);
        assert(members[q] == candidate_at(ds, w, exclusive, g.low + q)->0 as usize);
    }
    lemma_width_drawn(ds, members, w);
}

/// The demand indices behind `allocations_in_rotation`, in the same order.
pub open spec fn rotation_indices(ds: Seq<Demand>, s: int, rows: Seq<usize>, k: int) -> Seq<int>
    decreases k,
{
    if k <= 0 {
        Seq::empty()
    } else {
        let prior = rotation_indices(ds, s, rows, k - 1);
        let i = index_at(s, ds.len() as int, k - 1);
        if rows[i] > 0 {
            prior.push(i)
        } else {
            prior
        }
    }
}

proof fn lemma_rotation_drawn(ds: Seq<Demand>, s: int, rows: Seq<usize>, k: int)
    requires
        0 <= s < ds.len(),
        0 <= k <= ds.len(),
        rows.len() == ds.len(),
        forall|i: int| 0 <= i < ds.len() ==> #[trigger] rows[i] <= ds[i].available_rows,
    ensures
        drawn_via(ds, allocations_in_rotation(ds, s, rows, k), rotation_indices(ds, s, rows, k)),
        forall|p: int|
            0 <= p < rotation_indices(ds, s, rows, k).len() ==> rank(
                s,
                ds.len() as int,
                #[trigger] rotation_indices(ds, s, rows, k)[p],
            ) < k,
    decreases k,
{
    let n = ds.len() as int;
    lemma_rotation(s, n);
    if k > 0 {
        lemma_rotation_drawn(ds, s, rows, k - 1);
        let prior = rotation_indices(ds, s, rows, k - 1);
        let prior_out = allocations_in_rotation(ds, s, rows, k - 1);
        let idx = rotation_indices(ds, s, rows, k);
        let out = allocations_in_rotation(ds, s, rows, k);
        let i = index_at(s, n, k - 1);
        assert(0 <= i < n && rank(s, n, i) == k - 1);
        if rows[i] > 0 {
            assert forall|p: int| 0 <= p < out.len() implies 0 <= #[trigger] idx[p] < ds.len()
                && drawn_from(out[p], ds[idx[p]]) by {
                if p < prior.len() {
                    assert(idx[p] == prior[p] && out[p] == prior_out[p]);
                } else {
                    assert(idx[p] == i && out[p] == allocation_of(ds[i], rows[i]));
                }
            }
            assert forall|p: int, q: int| 0 <= p < q < out.len() implies #[trigger] idx[p]
                != #[trigger] idx[q] by {
                assert(idx[p] == prior[p]);
                if q < prior.len() {
                    assert(idx[q] == prior[q]);
                } else {
                    assert(idx[q] == i);
                }
            }
            assert forall|p: int| 0 <= p < idx.len() implies rank(s, n, #[trigger] idx[p]) < k by {
                if p < prior.len() {
                    assert(idx[p] == prior[p]);
                }
            }
        }
    }
}

/// An ordinary plan over valid demands draws from them.
proof fn lemma_ordinary_drawn(
    ds: Seq<Demand>,
    s: int,
    c: usize,
    limits: OrdinaryLimits,
    out: Seq<Allocation>,
)
    requires
        demands_valid(ds),
        0 <= s < ds.len(),
        ordinary_plan_spec(ds, s, c, limits, out),
    ensures
        drawn_from_demands(ds, out),
{
    lemma_valid_distinct(ds);
    let rows = choose|rows: Seq<usize>|
        ordinary_rows_spec(ds, s, c, limits, rows) && out == allocations_in_rotation(
            ds,
            s,
            rows,
            ds.len() as int,
        );
    let (t, p) = choose|t: int, p: int|
        t >= 1 && 0 <= p <= ds.len() && level_rows(ds, s, c, limits, rows, t, p);
    assert forall|i: int| 0 <= i < ds.len() implies #[trigger] rows[i] <= ds[i].available_rows by {
        assert(row_shape_valid(ds[i]));
        if ds[i].phase == Phase::Decode {
        } else if prefill_selected(ds, s, c, limits, i) {
        } else {
        }
    }
    lemma_rotation_drawn(ds, s, rows, ds.len() as int);
    lemma_drawn_via(ds, out, rotation_indices(ds, s, rows, ds.len() as int));
}

/// Whatever planner runs, an accepted plan is drawn from the demands it was
/// given: every allocation belongs to a demand of the same request,
/// sequence and phase and takes between one and all of its ready rows, and
/// no sequence is allocated twice in one batch.
pub proof fn law_plans_draw_from_demands(
    state: PolicyState,
    revision: u64,
    ds: Seq<Demand>,
    oc: usize,
    pc: usize,
    equal: bool,
    max_atomic: usize,
    exclusive: bool,
    limits: OrdinaryLimits,
    out: Seq<Allocation>,
    next: PolicyState,
)
    requires
        ds.len() <= usize::MAX,
        plan_outcome(
            state,
            revision,
            ds,
            oc,
            pc,
            equal,
            max_atomic,
            exclusive,
            limits,
            Ok((out, next)),
        ),
    ensures
        drawn_from_demands(ds, out),
{
    let n = ds.len() as int;
    if n > 0 {
        lemma_valid_iff_no_fault(ds);
        let s = (state.cursor as int) % n;
        if has_atomic(ds) {
            if equal {
                lemma_run_drawn(ds, s, pc as int, max_atomic as int, exclusive);
            } else {
                lemma_mixed_drawn(ds, s, pc as int, max_atomic as int, exclusive);
            }
        } else if equal {
            let (cs, o) = choose|cs: Seq<usize>, o: EqualOutcome|
                equal_plan_with(
                    ds,
                    state.decode_runs,
                    state.prefill_resume,
                    state.decode_resume,
                    pc,
                    cs,
                    o,
                ) && Ok::<(Seq<Allocation>, PolicyState), crate::scheduler::SchedulerError>((out, next))
                    == Ok::<(Seq<Allocation>, PolicyState), crate::scheduler::SchedulerError>(
                    (o.allocations@, crate::scheduler::equal_stepped(state, n, o)),
                );
            lemma_equal_drawn(ds, state.decode_runs, state.prefill_resume, state.decode_resume, pc, cs, o);
        } else {
            lemma_ordinary_drawn(ds, s, oc, limits, out);
        }
    }
}

/// Some demand of the list is a prompt (not a decode).
pub open spec fn prompt_waiting(ds: Seq<Demand>) -> bool {
    exists|i: int| 0 <= i < ds.len() && ds[i].phase != Phase::Decode
}

/// Some demand of the list is a decode.
pub open spec fn decode_waiting(ds: Seq<Demand>) -> bool {
    exists|i: int| 0 <= i < ds.len() && ds[i].phase == Phase::Decode
}

/// An equal-width plan serves one cohort: when decodes have had the batch
/// `PREFILL_PATIENCE` times in a row and a prompt waits, or no decode is
/// ready, the plan carries prompts only and resets the run; with both ready
/// and patience left, it carries decodes only and the run grows by one.
/// Either way the plan is not empty.
pub proof fn law_equal_plans_serve_one_cohort(
    state: PolicyState,
    revision: u64,
    ds: Seq<Demand>,
    oc: usize,
    pc: usize,
    max_atomic: usize,
    exclusive: bool,
    limits: OrdinaryLimits,
    out: Seq<Allocation>,
    next: PolicyState,
)
    requires
        !has_atomic(ds),
        ds.len() > 0,
        plan_outcome(state, revision, ds, oc, pc, true, max_atomic, exclusive, limits, Ok((out, next))),
    ensures
        out.len() >= 1,
        ((state.decode_runs >= crate::plan_equal::PREFILL_PATIENCE && prompt_waiting(ds))
            || !decode_waiting(ds)) ==> next.decode_runs == 0 && forall|k: int|
            0 <= k < out.len() ==> (#[trigger] out[k]).phase != Phase::Decode,
        (state.decode_runs < crate::plan_equal::PREFILL_PATIENCE && decode_waiting(ds) && prompt_waiting(
            ds,
        )) ==> next.decode_runs == state.decode_runs + 1 && forall|k: int|
            0 <= k < out.len() ==> (#[trigger] out[k]).phase == Phase::Decode,
{
    let n = ds.len() as int;
    lemma_valid_iff_no_fault(ds);
    let (cs, o) = choose|cs: Seq<usize>, o: EqualOutcome|
        equal_plan_with(ds, state.decode_runs, state.prefill_resume, state.decode_resume, pc, cs, o)
            && Ok::<(Seq<Allocation>, PolicyState), crate::scheduler::SchedulerError>((out, next))
            == Ok::<(Seq<Allocation>, PolicyState), crate::scheduler::SchedulerError>(
            (o.allocations@, crate::scheduler::equal_stepped(state, n, o)),
        );
    let (serve, runs) = cohort_choice(ds, state.decode_runs);
    let resume = if serve {
        state.prefill_resume
    } else {
        state.decode_resume
    };
    let first = resume_position(ds, cs, resume, 0);
    let take = min_int(pc as int, cs.len() as int);
    let sel = equal_selection(cs, first, take);
    lemma_resume_position(ds, cs, resume, 0);
    lemma_selection(ds, serve, cs, first, take);
    assert(out == o.allocations@);
    assert forall|k: int| 0 <= k < out.len() implies ((#[trigger] out[k]).phase != Phase::Decode)
        == serve by {
        assert(in_cohort(ds, serve, sel[k] as int));
    }
}

/// How long decodes have held the batch after each of a run of equal-width
/// plans that all had both cohorts ready and all went to decodes.
pub open spec fn decode_streak(start: u32, dss: Seq<Seq<Demand>>) -> Option<u32>
    decreases dss.len(),
{
    if dss.len() == 0 {
        Some(start)
    } else {
        match decode_streak(start, dss.drop_last()) {
            None => None,
            Some(runs) => {
                let (serve, next) = cohort_choice(dss.last(), runs);
                if serve {
                    None
                } else {
                    Some(next)
                }
            },
        }
    }
}

/// A waiting prompt is never starved by decodes: from any run within the
/// patience, `PREFILL_PATIENCE + 1` consecutive equal-width choices over
/// lists where a prompt and a decode are both ready cannot all go to the
/// decodes.
pub proof fn law_prompts_wait_at_most_patience(start: u32, dss: Seq<Seq<Demand>>)
    requires
        start <= crate::plan_equal::PREFILL_PATIENCE,
        dss.len() == crate::plan_equal::PREFILL_PATIENCE + 1,
        forall|k: int| 0 <= k < dss.len() ==> prompt_waiting(#[trigger] dss[k]) && decode_waiting(dss[k]),
    ensures
        decode_streak(start, dss) is None,
{
    lemma_decode_streak(start, dss);
}

proof fn lemma_decode_streak(start: u32, dss: Seq<Seq<Demand>>)
    requires
        start <= crate::plan_equal::PREFILL_PATIENCE,
        forall|k: int| 0 <= k < dss.len() ==> prompt_waiting(#[trigger] dss[k]) && decode_waiting(dss[k]),
    ensures
        decode_streak(start, dss) matches Some(runs) ==> runs == start + dss.len()
            && runs <= crate::plan_equal::PREFILL_PATIENCE,
    decreases dss.len(),
{
    if dss.len() > 0 {
        let init = dss.drop_last();
        assert forall|k: int| 0 <= k < init.len() implies prompt_waiting(#[trigger] init[k])
            && decode_waiting(init[k]) by {
            assert(init[k] == dss[k]);
        }
        lemma_decode_streak(start, init);
        let last = dss.last();
        assert(prompt_waiting(dss[dss.len() - 1]) && decode_waiting(dss[dss.len() - 1]));
    }
}

/// The decode run after the equal-width cohort choices for the lists `dss`
/// from run `start`, and how many of those choices served the prompts.
pub open spec fn cohort_choices(start: u32, dss: Seq<Seq<Demand>>) -> (u32, nat)
    decreases dss.len(),
{
    if dss.len() == 0 {
        (start, 0)
    } else {
        let prior = cohort_choices(start, dss.drop_last());
        let choice = cohort_choice(dss.last(), prior.0);
        (choice.1, prior.1 + if choice.0 {
            1nat
        } else {
            0nat
        })
    }
}

/// While prompts and decodes are both ready, the prompts are served exactly
/// once every `PREFILL_PATIENCE + 1` equal-width plans: from a run of
/// `start`, after `k` choices the prompts have been served
/// `(start + k) / (PREFILL_PATIENCE + 1)` times and the run stands at the
/// remainder.
pub proof fn law_prompts_served_once_per_patience(start: u32, dss: Seq<Seq<Demand>>)
    requires
        start <= crate::plan_equal::PREFILL_PATIENCE,
        forall|k: int| 0 <= k < dss.len() ==> prompt_waiting(#[trigger] dss[k]) && decode_waiting(dss[k]),
    ensures
        cohort_choices(start, dss).0 == (start + dss.len()) % (crate::plan_equal::PREFILL_PATIENCE + 1),
        cohort_choices(start, dss).1 == (start + dss.len()) / (crate::plan_equal::PREFILL_PATIENCE + 1),
    decreases dss.len(),
{
    if dss.len() > 0 {
        let init = dss.drop_last();
        assert forall|k: int| 0 <= k < init.len() implies prompt_waiting(#[trigger] init[k]) && decode_waiting(
            init[k],
        ) by {
            assert(init[k] == dss[k]);
        }
        law_prompts_served_once_per_patience(start, init);
        let last = dss.last();
        assert(prompt_waiting(dss[dss.len() - 1]) && decode_waiting(dss[dss.len() - 1]));
        let m = start + init.len();
        assert(m % 9 < 9 && m == 9 * (m / 9) + m % 9) by (nonlinear_arith)
            requires
                m >= 0,
        ;
        if m % 9 == 8 {
            assert((m + 1) % 9 == 0 && (m + 1) / 9 == m / 9 + 1) by (nonlinear_arith)
                requires
                    m >= 0,
                    m % 9 == 8,
            ;
        } else {
            assert((m + 1) % 9 == m % 9 + 1 && (m + 1) / 9 == m / 9) by (nonlinear_arith)
                requires
                    m >= 0,
                    m % 9 < 8,
            ;
        }
    }
}

} // verus!
