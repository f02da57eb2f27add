//! A plan fits its batch: the rows it carries never exceed the capacity the
//! planner was given, logical for ordinary attention and physical for
//! equal-width and speculative rounds.
use crate::plan_atomic::{
    atomic_limit, atomic_of_width, count_where, equal_run, first_of, grow, grow_step,
    lemma_count_where_nonneg, mixed_members, ordinary_compatible, rotation_pick, run_len,
    run_members, seed, Run,
};
use crate::plan_equal::{
    allocations_at_width, cohort_choice, equal_plan_with, equal_selection, equal_width,
    min_rows, resume_position, EqualOutcome,
};
use crate::plan_laws::{lemma_resume_position, lemma_selection};
use crate::plan_ordinary::min_int;
use crate::scheduler::{
    has_atomic, index_at, lemma_rotation, lemma_valid_iff_no_fault, plan_outcome, rank,
    Allocation, Demand, OrdinaryLimits, PolicyState,
};
use vstd::prelude::*;

verus! {

/// Rows a plan carries, in all.
pub open spec fn planned_rows(out: Seq<Allocation>) -> int
    decreases out.len(),
{
    if out.len() == 0 {
        0
    } else {
        planned_rows(out.drop_last()) + out.last().rows
    }
}

/// The rows of a plan's first `a + 1` allocations, one allocation at a time.
pub proof fn lemma_planned_prefix(out: Seq<Allocation>, a: int)
    requires
        0 <= a < out.len(),
    ensures
        planned_rows(out.take(a + 1)) == planned_rows(out.take(a)) + out[a].rows,
        planned_rows(out.take(a + 1)) <= planned_rows(out),
    decreases out.len() - a,
{
    assert(out.take(a + 1).drop_last() =~= out.take(a));
    if a + 1 < out.len() {
        lemma_planned_prefix(out, a + 1);
    } else {
        assert(out.take(a + 1) =~= out);
    }
}

proof fn lemma_width_rows(ds: Seq<Demand>, sel: Seq<usize>, w: int)
    requires
        0 <= w <= usize::MAX,
    ensures
        planned_rows(allocations_at_width(ds, sel, w)) == sel.len() * w,
    decreases sel.len(),
{
    let out = allocations_at_width(ds, sel, w);
    if sel.len() > 0 {
        lemma_width_rows(ds, sel.drop_last(), w);
        assert(out.drop_last() =~= allocations_at_width(ds, sel.drop_last(), w));
        assert(out.last().rows == w);
        assert(planned_rows(out) == planned_rows(out.drop_last()) + out.last().rows);
        assert(sel.len() * w == (sel.len() - 1) * w + w) by (nonlinear_arith);
    } else {
        assert(out.len() == 0);
    }
}

/// Taking the first `limit` indices that satisfy `f` takes exactly that many,
/// or all of them when fewer exist.
proof fn lemma_pick_len(ds: Seq<Demand>, s: int, k: int, f: spec_fn(int) -> bool, limit: int)
    requires
        0 <= s < ds.len(),
        0 <= k <= ds.len(),
        limit >= 0,
    ensures
        rotation_pick(ds, s, k, first_of(ds, s, f, limit)).len() == min_int(
            count_where(ds, s, k, f),
            limit,
        ),
    decreases k,
{
    lemma_rotation(s, ds.len() as int);
    lemma_count_where_nonneg(ds, s, k, f);
    if k > 0 {
        lemma_pick_len(ds, s, k - 1, f, limit);
        lemma_count_where_nonneg(ds, s, k - 1, f);
        let i = index_at(s, ds.len() as int, k - 1);
        assert(rank(s, ds.len() as int, i) == k - 1);
    }
}

/// A mixed speculative round fits the physical batch.
proof fn lemma_mixed_fits(ds: Seq<Demand>, s: int, c: int, w: int, max_atomic: int, exclusive: bool)
    requires
        0 <= s < ds.len(),
        1 <= w <= c,
        w <= usize::MAX,
        max_atomic >= 1,
    ensures
        planned_rows(
            allocations_at_width(ds, mixed_members(ds, s, c, w, max_atomic, exclusive), w),
        ) <= c,
{
    let n = ds.len() as int;
    let lim = atomic_limit(c, w, max_atomic);
    let a = min_int(count_where(ds, s, n, atomic_of_width(ds, w)), lim);
    lemma_count_where_nonneg(ds, s, n, atomic_of_width(ds, w));
    assert(0 <= c / w) by (nonlinear_arith)
        requires
            1 <= w <= c,
    ;
    assert(0 <= lim <= c / w);
    assert(0 <= a <= c / w);
    assert(a * w <= (c / w) * w) by (nonlinear_arith)
        requires
            0 <= a <= c / w,
            w >= 1,
    ;
    assert((c / w) * w <= c) by (nonlinear_arith)
        requires
            1 <= w,
            0 <= c,
    ;
    let room = (c - a * w) / w;
    assert(0 <= room && room * w <= c - a * w) by (nonlinear_arith)
        requires
            room == (c - a * w) / w,
            c - a * w >= 0,
            w >= 1,
    ;
    let fa = first_of(ds, s, ordinary_compatible(ds, w, exclusive), room);
    let fb = first_of(ds, s, atomic_of_width(ds, w), lim);
    lemma_pick_len(ds, s, n, ordinary_compatible(ds, w, exclusive), room);
    lemma_pick_len(ds, s, n, atomic_of_width(ds, w), lim);
    let pa = rotation_pick(ds, s, n, fa);
    let pb = rotation_pick(ds, s, n, fb);
    let members = mixed_members(ds, s, c, w, max_atomic, exclusive);
    assert(members == pa + pb);
    assert(pa.len() <= room);
    assert(pb.len() == a);
    lemma_width_rows(ds, members, w);
    assert((pa.len() + pb.len()) * w <= room * w + a * w) by (nonlinear_arith)
        requires
            pa.len() <= room,
            pb.len() == a,
            w >= 1,
    ;
}

/// A growing run never grows past its member limit.
proof fn lemma_grow_len(
    ds: Seq<Demand>,
    w: int,
    exclusive: bool,
    max_seq: int,
    max_atomic: int,
    g: Run,
)
    requires
        1 <= run_len(g) <= max_seq,
    ensures
        1 <= run_len(grow(ds, w, exclusive, max_seq, max_atomic, g)) <= max_seq,
    decreases max_seq - run_len(g),
{
    if run_len(g) < max_seq && (g.lower_open || g.upper_open) {
        let (g1, added) = grow_step(ds, w, exclusive, max_seq, max_atomic, g);
        if added && run_len(g) < run_len(g1) <= max_seq {
            lemma_grow_len(ds, w, exclusive, max_seq, max_atomic, g1);
        }
    }
}

/// An equal-width speculative round fits the physical batch.
proof fn lemma_run_fits(ds: Seq<Demand>, s: int, c: int, max_atomic: int, exclusive: bool)
    requires
        0 <= s < ds.len(),
        1 <= ds[seed(ds, s)].available_rows <= c,
    ensures
        planned_rows(
            allocations_at_width(
                ds,
                run_members(
                    ds,
                    ds[seed(ds, s)].available_rows as int,
                    exclusive,
                    equal_run(ds, s, c, max_atomic, exclusive),
                ),
                ds[seed(ds, s)].available_rows as int,
            ),
        ) <= c,
{
    let f = seed(ds, s);
    let w = ds[f].available_rows as int;
    let id = ds[f].sequence_id as int;
    assert(1 <= c / w) by (nonlinear_arith)
        requires
            1 <= w <= c,
    ;
    let g0 = Run { low: id, high: id, lower_open: true, upper_open: true, atomic_count: 1 };
    lemma_grow_len(ds, w, exclusive, c / w, max_atomic, g0);
    let g = equal_run(ds, s, c, max_atomic, exclusive);
    let members = run_members(ds, w, exclusive, g);
    lemma_width_rows(ds, members, w);
    assert(run_len(g) * w <= (c / w) * w) by (nonlinear_arith)
        requires
            1 <= run_len(g) <= c / w,
            w >= 1,
    ;
    assert((c / w) * w <= c) by (nonlinear_arith)
        requires
            1 <= w,
            0 <= c,
    ;
}

proof fn lemma_min_rows_nonneg(ds: Seq<Demand>, xs: Seq<usize>)
    ensures
        min_rows(ds, xs) >= 0,
    decreases xs.len(),
{
    if xs.len() > 1 {
        lemma_min_rows_nonneg(ds, xs.drop_last());
    }
}

/// An equal-width plan fits the physical batch.
proof fn lemma_equal_fits(
    ds: Seq<Demand>,
    decode_runs: u32,
    prefill_resume: u32,
    decode_resume: u32,
    c: usize,
    cs: Seq<usize>,
    o: EqualOutcome,
)
    requires
        c >= 1,
        equal_plan_with(ds, decode_runs, prefill_resume, decode_resume, c, cs, o),
    ensures
        planned_rows(o.allocations@) <= c,
{
    let (serve, runs) = cohort_choice(ds, decode_runs);
    let resume = if serve {
        prefill_resume
    } else {
        decode_resume
    };
    let first = resume_position(ds, cs, resume, 0);
    let take = min_int(c as int, cs.len() as int);
    let sel = equal_selection(cs, first, take);
    let w = equal_width(ds, serve, sel, c as int);
    lemma_resume_position(ds, cs, resume, 0);
    lemma_selection(ds, serve, cs, first, take);
    assert(sel.len() == take);
    if serve {
        assert(take * (c as int / take) <= c) by (nonlinear_arith)
            requires
                1 <= take,
                0 <= c,
        ;
        lemma_min_rows_nonneg(ds, sel);
        {
            assert(w <= c as int / take);
            assert(take * w <= take * (c as int / take)) by (nonlinear_arith)
                requires
                    0 <= w <= c as int / take,
                    1 <= take,
            ;
            assert(w <= usize::MAX) by (nonlinear_arith)
                requires
                    w <= c as int / take,
                    1 <= take,
                    c <= usize::MAX,
            ;
            lemma_width_rows(ds, sel, w);
        }
    } else {
        lemma_width_rows(ds, sel, 1);
    }
}

/// Sum of `g` over the rotation positions `0..k` that start at `s`.
pub open spec fn rotation_sum(g: spec_fn(int) -> int, s: int, n: int, k: int) -> int
    decreases k,
{
    if k <= 0 {
        0
    } else {
        rotation_sum(g, s, n, k - 1) + g(index_at(s, n, k - 1))
    }
}

/// Sum of `g` over the indices `a..b`.
pub open spec fn index_sum(g: spec_fn(int) -> int, a: int, b: int) -> int
    decreases b - a,
{
    if b <= a {
        0
    } else {
        index_sum(g, a, b - 1) + g(b - 1)
    }
}

proof fn lemma_index_split(g: spec_fn(int) -> int, a: int, m: int, b: int)
    requires
        a <= m <= b,
    ensures
        index_sum(g, a, b) == index_sum(g, a, m) + index_sum(g, m, b),
    decreases b - m,
{
    if m < b {
        lemma_index_split(g, a, m, b - 1);
    }
}

proof fn lemma_rotation_sum(g: spec_fn(int) -> int, s: int, n: int, k: int)
    requires
        0 <= s < n,
        0 <= k <= n,
    ensures
        rotation_sum(g, s, n, k) == if s + k <= n {
            index_sum(g, s, s + k)
        } else {
            index_sum(g, s, n) + index_sum(g, 0, s + k - n)
        },
    decreases k,
{
    if k > 0 {
        lemma_rotation_sum(g, s, n, k - 1);
    }
}

/// Summing in rotation order is summing in index order.
proof fn lemma_rotation_sum_all(g: spec_fn(int) -> int, s: int, n: int)
    requires
        0 <= s < n,
    ensures
        rotation_sum(g, s, n, n) == index_sum(g, 0, n),
{
    lemma_rotation_sum(g, s, n, n);
    lemma_index_split(g, 0, s, n);
}

proof fn lemma_rotation_sum_add(
    f: spec_fn(int) -> int,
    g: spec_fn(int) -> int,
    h: spec_fn(int) -> int,
    s: int,
    n: int,
    k: int,
)
    requires
        0 <= s < n,
        0 <= k <= n,
        forall|i: int| 0 <= i < n ==> #[trigger] f(i) == g(i) + h(i),
    ensures
        rotation_sum(f, s, n, k) == rotation_sum(g, s, n, k) + rotation_sum(h, s, n, k),
    decreases k,
{
    lemma_rotation(s, n);
    if k > 0 {
        lemma_rotation_sum_add(f, g, h, s, n, k - 1);
        assert(0 <= index_at(s, n, k - 1) < n);
    }
}

proof fn lemma_total_index_sum(r: Seq<usize>, g: spec_fn(int) -> int)
    requires
        forall|i: int| 0 <= i < r.len() ==> #[trigger] g(i) == r[i] as int,
    ensures
        crate::rows::total(r) == index_sum(g, 0, r.len() as int),
    decreases r.len(),
{
    if r.len() > 0 {
        let init = r.drop_last();
        assert forall|i: int| 0 <= i < init.len() implies #[trigger] g(i) == init[i] as int by {
            assert(init[i] == r[i]);
        }
        lemma_total_index_sum(init, g);
    }
}

proof fn lemma_rotation_rows(ds: Seq<Demand>, s: int, rows: Seq<usize>, g: spec_fn(int) -> int, k: int)
    requires
        0 <= s < ds.len(),
        0 <= k <= ds.len(),
        rows.len() == ds.len(),
        forall|i: int| 0 <= i < ds.len() ==> #[trigger] g(i) == rows[i] as int,
    ensures
        planned_rows(crate::plan_ordinary::allocations_in_rotation(ds, s, rows, k)) == rotation_sum(
            g,
            s,
            ds.len() as int,
            k,
        ),
    decreases k,
{
    lemma_rotation(s, ds.len() as int);
    if k > 0 {
        lemma_rotation_rows(ds, s, rows, g, k - 1);
        let prior = crate::plan_ordinary::allocations_in_rotation(ds, s, rows, k - 1);
        let cur = crate::plan_ordinary::allocations_in_rotation(ds, s, rows, k);
        let i = index_at(s, ds.len() as int, k - 1);
        assert(0 <= i < ds.len());
        if rows[i] > 0 {
            assert(cur.drop_last() == prior);
        }
    }
}

/// The decodes an ordinary plan takes, counted in rotation order.
proof fn lemma_decode_rows(
    ds: Seq<Demand>,
    s: int,
    c: usize,
    limits: OrdinaryLimits,
    rows: Seq<usize>,
    g: spec_fn(int) -> int,
    k: int,
)
    requires
        0 <= s < ds.len(),
        0 <= k <= ds.len(),
        crate::plan_ordinary::ordinary_rows_spec(ds, s, c, limits, rows),
        crate::plan_ordinary::decode_limit(c, limits) >= 0,
        forall|i: int|
            0 <= i < ds.len() ==> #[trigger] g(i) == if ds[i].phase == crate::scheduler::Phase::Decode {
                rows[i] as int
            } else {
                0
            },
    ensures
        rotation_sum(g, s, ds.len() as int, k) == min_int(
            crate::scheduler::count_before(ds, s, k, crate::scheduler::Phase::Decode),
            crate::plan_ordinary::decode_limit(c, limits),
        ),
    decreases k,
{
    let n = ds.len() as int;
    lemma_rotation(s, n);
    crate::scheduler::lemma_count_before_nonneg(ds, s, k, crate::scheduler::Phase::Decode);
    if k > 0 {
        lemma_decode_rows(ds, s, c, limits, rows, g, k - 1);
        crate::scheduler::lemma_count_before_nonneg(ds, s, k - 1, crate::scheduler::Phase::Decode);
        let i = index_at(s, n, k - 1);
        assert(0 <= i < n && rank(s, n, i) == k - 1);
    }
}

/// An ordinary plan fits the logical batch: the decodes it takes and the
/// prompt rows it gives out together stay within the capacity.
proof fn lemma_ordinary_fits(
    ds: Seq<Demand>,
    s: int,
    c: usize,
    limits: OrdinaryLimits,
    out: Seq<Allocation>,
)
    requires
        0 <= s < ds.len(),
        crate::plan_ordinary::ordinary_plan_spec(ds, s, c, limits, out),
    ensures
        planned_rows(out) <= c,
{
    let n = ds.len() as int;
    let rows = choose|rows: Seq<usize>|
        crate::plan_ordinary::ordinary_rows_spec(ds, s, c, limits, rows) && out
            == crate::plan_ordinary::allocations_in_rotation(ds, s, rows, n);
    let all = |i: int| rows[i] as int;
    let dec = |i: int|
        if ds[i].phase == crate::scheduler::Phase::Decode {
            rows[i] as int
        } else {
            0
        };
    let pre = |i: int|
        if ds[i].phase == crate::scheduler::Phase::Prefill {
            rows[i] as int
        } else {
            0
        };
    lemma_rotation_rows(ds, s, rows, all, n);
    assert forall|i: int| 0 <= i < n implies #[trigger] all(i) == dec(i) + pre(i) by {
        if ds[i].phase != crate::scheduler::Phase::Decode && ds[i].phase
            != crate::scheduler::Phase::Prefill {
            assert(!crate::plan_ordinary::prefill_selected(ds, s, c, limits, i));
        }
    }
    lemma_rotation_sum_add(all, dec, pre, s, n, n);
    let dl = crate::plan_ordinary::decode_limit(c, limits);
    assert(0 <= dl <= c);
    lemma_decode_rows(ds, s, c, limits, rows, dec, n);
    lemma_rotation_sum_all(pre, s, n);
    let part = crate::plan_ordinary::prefill_part(ds, rows);
    lemma_total_index_sum(part, pre);
    let taken = crate::plan_ordinary::decodes_taken(ds, s, c, limits);
    assert(rotation_sum(dec, s, n, n) == taken);
    assert(crate::rows::total(part) <= crate::plan_ordinary::prefill_budget(ds, s, c, limits));
    assert(crate::plan_ordinary::prefill_budget(ds, s, c, limits) <= c - taken);
}

/// A plan never carries more rows than its batch holds: the logical
/// capacity for ordinary attention, the physical capacity for equal-width
/// and speculative rounds.
pub proof fn law_plans_fit_capacity(
    state: PolicyState,
    revision: u64,
    ds: Seq<Demand>,
    oc: usize,
    pc: usize,
    equal: bool,
    max_atomic: usize,
    exclusive: bool,
    limits: OrdinaryLimits,
    out: Seq<Allocation>,
    next: PolicyState,
)
    requires
        plan_outcome(
            state,
            revision,
            ds,
            oc,
            pc,
            equal,
            max_atomic,
            exclusive,
            limits,
            Ok((out, next)),
        ),
    ensures
        planned_rows(out) <= if has_atomic(ds) || equal {
            pc
        } else {
            oc
        },
{
    let n = ds.len() as int;
    if n > 0 {
        lemma_valid_iff_no_fault(ds);
        crate::scheduler::lemma_valid_distinct(ds);
        let s = (state.cursor as int) % n;
        if has_atomic(ds) {
            crate::plan_laws::lemma_seed(ds, s);
            let w = ds[seed(ds, s)].available_rows as int;
            assert(crate::scheduler::row_shape_valid(ds[seed(ds, s)]));
            if equal {
                lemma_run_fits(ds, s, pc as int, max_atomic as int, exclusive);
            } else {
                lemma_mixed_fits(ds, s, pc as int, w, max_atomic as int, exclusive);
            }
        } else if equal {
            let (cs, o) = choose|cs: Seq<usize>, o: EqualOutcome|
                equal_plan_with(
                    ds,
                    state.decode_runs,
                    state.prefill_resume,
                    state.decode_resume,
                    pc,
                    cs,
                    o,
                ) && Ok::<(Seq<Allocation>, PolicyState), crate::scheduler::SchedulerError>((out, next))
                    == Ok::<(Seq<Allocation>, PolicyState), crate::scheduler::SchedulerError>(
                    (o.allocations@, crate::scheduler::equal_stepped(state, n, o)),
                );
            lemma_equal_fits(ds, state.decode_runs, state.prefill_resume, state.decode_resume, pc, cs, o);
        } else {
            lemma_ordinary_fits(ds, s, oc, limits, out);
        }
    }
}

} // verus!
