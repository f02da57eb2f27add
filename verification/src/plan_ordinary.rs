//! Ordinary attention planning: decodes first, then prompts water-filled in
//! rotating order, all inside the bounds of one logical batch.
use crate::rows::{lemma_total_le, lemma_total_update, lemma_total_zero, total};
use crate::scheduler::{
    cap_of, count_before, index_at, lemma_count_before_nonneg, lemma_rotation, rank, Allocation,
    Demand, OrdinaryLimits, Phase,
};
use vstd::prelude::*;

verus! {

pub open spec fn min_int(a: int, b: int) -> int {
    if a <= b {
        a
    } else {
        b
    }
}

/// How many decodes one batch takes at most.
pub open spec fn decode_limit(c: usize, limits: OrdinaryLimits) -> int {
    cap_of(limits.decode_members, c as int)
}

/// How many decodes the batch actually takes.
pub open spec fn decodes_taken(ds: Seq<Demand>, s: int, c: usize, limits: OrdinaryLimits) -> int {
    min_int(count_before(ds, s, ds.len() as int, Phase::Decode), decode_limit(c, limits))
}

/// Rows left for prompts once the decodes have theirs.
pub open spec fn prefill_budget(ds: Seq<Demand>, s: int, c: usize, limits: OrdinaryLimits) -> int {
    cap_of(limits.prefill_rows, c - decodes_taken(ds, s, c, limits))
}

/// How many prompts the batch takes at most.
pub open spec fn prefill_limit(ds: Seq<Demand>, s: int, c: usize, limits: OrdinaryLimits) -> int {
    cap_of(limits.prefill_members, prefill_budget(ds, s, c, limits))
}

/// The decode at index `i` is one of the first the rotation reaches.
pub open spec fn decode_selected(
    ds: Seq<Demand>,
    s: int,
    c: usize,
    limits: OrdinaryLimits,
    i: int,
) -> bool {
    &&& ds[i].phase == Phase::Decode
    &&& count_before(ds, s, rank(s, ds.len() as int, i), Phase::Decode) < decode_limit(c, limits)
}

/// The prompt at index `i` is one of the first the rotation reaches.
pub open spec fn prefill_selected(
    ds: Seq<Demand>,
    s: int,
    c: usize,
    limits: OrdinaryLimits,
    i: int,
) -> bool {
    &&& ds[i].phase == Phase::Prefill
    &&& count_before(ds, s, rank(s, ds.len() as int, i), Phase::Prefill) < prefill_limit(
        ds,
        s,
        c,
        limits,
    )
}

/// Rows each selected prompt could take, zero for everything else.
pub open spec fn selected_caps(ds: Seq<Demand>, s: int, c: usize, limits: OrdinaryLimits) -> Seq<
    usize,
> {
    Seq::new(
        ds.len(),
        |i: int|
            if prefill_selected(ds, s, c, limits, i) {
                ds[i].available_rows
            } else {
                0
            },
    )
}

/// The prompt rows of a row vector.
pub open spec fn prefill_part(ds: Seq<Demand>, rows: Seq<usize>) -> Seq<usize> {
    Seq::new(
        ds.len(),
        |i: int|
            if ds[i].phase == Phase::Prefill {
                rows[i]
            } else {
                0
            },
    )
}

/// Every selected prompt is filled to level `t`, and those before rotation
/// position `p` to one row more, each capped by what it has available.
pub open spec fn level_rows(
    ds: Seq<Demand>,
    s: int,
    c: usize,
    limits: OrdinaryLimits,
    rows: Seq<usize>,
    t: int,
    p: int,
) -> bool {
    forall|i: int|
        0 <= i < ds.len() && prefill_selected(ds, s, c, limits, i) ==> #[trigger] rows[i]
            == min_int(
            ds[i].available_rows as int,
            t + if rank(s, ds.len() as int, i) < p {
                1int
            } else {
                0int
            },
        )
}

/// The rows the ordinary planner gives each demand (indexed like `ds`).
pub open spec fn ordinary_rows_spec(
    ds: Seq<Demand>,
    s: int,
    c: usize,
    limits: OrdinaryLimits,
    rows: Seq<usize>,
) -> bool {
    &&& rows.len() == ds.len()
    &&& forall|i: int|
        0 <= i < ds.len() && ds[i].phase == Phase::Decode ==> #[trigger] rows[i] == if decode_selected(
            ds,
            s,
            c,
            limits,
            i,
        ) {
            1usize
        } else {
            0usize
        }
    &&& forall|i: int|
        0 <= i < ds.len() && ds[i].phase != Phase::Decode && !prefill_selected(ds, s, c, limits, i)
            ==> #[trigger] rows[i] == 0
    &&& exists|t: int, p: int| t >= 1 && 0 <= p <= ds.len() && level_rows(ds, s, c, limits, rows, t, p)
    &&& total(prefill_part(ds, rows)) == min_int(
        prefill_budget(ds, s, c, limits),
        total(selected_caps(ds, s, c, limits)),
    )
}

/// The allocation that carries `rows` rows of demand `d`.
pub open spec fn allocation_of(d: Demand, rows: usize) -> Allocation {
    Allocation { request_id: d.request_id, sequence_id: d.sequence_id, phase: d.phase, rows }
}

/// The demands with rows, in rotation order from `s`, over positions `0..k`.
pub open spec fn allocations_in_rotation(ds: Seq<Demand>, s: int, rows: Seq<usize>, k: int) -> Seq<
    Allocation,
>
    decreases k,
{
    if k <= 0 {
        Seq::empty()
    } else {
        let prior = allocations_in_rotation(ds, s, rows, k - 1);
        let i = index_at(s, ds.len() as int, k - 1);
        if rows[i] > 0 {
            prior.push(allocation_of(ds[i], rows[i]))
        } else {
            prior
        }
    }
}

fn zero_rows(n: usize) -> (rows: Vec<usize>)
    ensures
        rows@.len() == n,
        forall|i: int| 0 <= i < n ==> rows@[i] == 0,
{
    let mut rows: Vec<usize> = Vec::new();
    while rows.len() < n
        invariant
            rows@.len() <= n,
            forall|i: int| 0 <= i < rows@.len() ==> rows@[i] == 0,
        decreases n - rows@.len(),
    {
        rows.push(0);
    }
    rows
}

fn cap_exec(limit: usize, n: usize) -> (r: usize)
    ensures
        r == cap_of(limit, n as int),
{
    if limit == 0 || n <= limit {
        n
    } else {
        limit
    }
}

fn rotate(start: usize, n: usize, k: usize) -> (i: usize)
    requires
        start < n,
        k < n,
    ensures
        i == index_at(start as int, n as int, k as int),
        i < n,
{
    if start < n - k {
        start + k
    } else {
        start - (n - k)
    }
}

/// The row vector of an ordinary plan.
#[verifier::rlimit(50)]
pub fn ordinary_rows(demands: &[Demand], start: usize, capacity: usize, limits: OrdinaryLimits) -> (rows:
    Vec<usize>)
    requires
        start < demands@.len(),
        capacity > 0,
        forall|i: int|
            0 <= i < demands@.len() ==> (#[trigger] demands@[i]).phase == Phase::Prefill
                || demands@[i].phase == Phase::Decode,
        forall|i: int| 0 <= i < demands@.len() ==> (#[trigger] demands@[i]).available_rows >= 1,
    ensures
        ordinary_rows_spec(demands@, start as int, capacity, limits, rows@),
{
    let ghost ds = demands@;
    let ghost s = start as int;
    let n = demands.len();
    proof {
        lemma_rotation(s, n as int);
    }
    let mut rows = zero_rows(n);
    let dlimit = cap_exec(limits.decode_members, capacity);
    let mut taken: usize = 0;
    let mut k: usize = 0;
    while k < n
        invariant
            n == ds.len(),
            ds == demands@,
            s == start,
            start < n,
            dlimit == decode_limit(capacity, limits),
            dlimit <= capacity,
            k <= n,
            rows@.len() == n,
            taken == min_int(count_before(ds, s, k as int, Phase::Decode), dlimit as int),
            forall|i: int|
                0 <= i < n && rank(s, n as int, i) < k ==> #[trigger] rows@[i] == if decode_selected(
                    ds,
                    s,
                    capacity,
                    limits,
                    i,
                ) {
                    1usize
                } else {
                    0usize
                },
            forall|i: int| 0 <= i < n && rank(s, n as int, i) >= k ==> #[trigger] rows@[i] == 0,
        decreases n - k,
    {
        let idx = rotate(start, n, k);
        proof {
            lemma_count_before_nonneg(ds, s, k as int, Phase::Decode);
        }
        if demands[idx].phase == Phase::Decode && taken < dlimit {
            rows.set(idx, 1);
            taken += 1;
        }
        k += 1;
    }
    assert(taken == decodes_taken(ds, s, capacity, limits));
    let budget = cap_exec(limits.prefill_rows, capacity - taken);
    let plimit = cap_exec(limits.prefill_members, budget);
    let mut picked: usize = 0;
    let ghost decode_rows = rows@;
    proof {
        lemma_total_zero(prefill_part(ds, rows@));
    }
    k = 0;
    while k < n
        invariant
            n == ds.len(),
            ds == demands@,
            s == start,
            start < n,
            budget == prefill_budget(ds, s, capacity, limits),
            plimit == prefill_limit(ds, s, capacity, limits),
            plimit <= budget,
            k <= n,
            rows@.len() == n,
            picked == min_int(count_before(ds, s, k as int, Phase::Prefill), plimit as int),
            total(prefill_part(ds, rows@)) == picked,
            forall|i: int|
                0 <= i < n && ds[i].phase == Phase::Decode ==> #[trigger] rows@[i]
                    == decode_rows[i],
            forall|i: int|
                0 <= i < n && ds[i].phase == Phase::Prefill && rank(s, n as int, i) < k
                    ==> #[trigger] rows@[i] == if prefill_selected(ds, s, capacity, limits, i) {
                    1usize
                } else {
                    0usize
                },
            forall|i: int|
                0 <= i < n && ds[i].phase == Phase::Prefill && rank(s, n as int, i) >= k
                    ==> #[trigger] rows@[i] == 0,
        decreases n - k,
    {
        let idx = rotate(start, n, k);
        proof {
            lemma_count_before_nonneg(ds, s, k as int, Phase::Prefill);
        }
        if demands[idx].phase == Phase::Prefill && picked < plimit {
            proof {
                lemma_total_update(prefill_part(ds, rows@), idx as int, 1usize);
                assert(prefill_part(ds, rows@.update(idx as int, 1usize)) =~= prefill_part(
                    ds,
                    rows@,
                ).update(idx as int, 1usize));
            }
            rows.set(idx, 1);
            picked += 1;
        }
        k += 1;
    }
    proof {
        lemma_count_before_nonneg(ds, s, n as int, Phase::Prefill);
        assert(level_rows(ds, s, capacity, limits, rows@, 1, 0));
    }
    let mut remaining: usize = budget - picked;
    let ghost mut lt: int = 1;
    let ghost mut lp: int = 0;
    let mut stalled = false;
    while remaining > 0 && !stalled
        invariant
            n == ds.len(),
            ds == demands@,
            s == start,
            start < n,
            budget == prefill_budget(ds, s, capacity, limits),
            rows@.len() == n,
            remaining <= budget,
            total(prefill_part(ds, rows@)) + remaining == budget,
            lt >= 1,
            0 <= lp <= n,
            remaining > 0 && !stalled ==> lp == 0,
            level_rows(ds, s, capacity, limits, rows@, lt, lp),
            stalled ==> forall|i: int|
                0 <= i < n && prefill_selected(ds, s, capacity, limits, i) ==> #[trigger] rows@[i]
                    == ds[i].available_rows,
            forall|i: int|
                0 <= i < n && ds[i].phase == Phase::Decode ==> #[trigger] rows@[i]
                    == decode_rows[i],
            forall|i: int|
                0 <= i < n && ds[i].phase == Phase::Prefill && !prefill_selected(
                    ds,
                    s,
                    capacity,
                    limits,
                    i,
                ) ==> #[trigger] rows@[i] == 0,
        decreases remaining as int + if stalled { 0int } else { 1int },
    {
        let mut progressed = false;
        let ghost before = remaining;
        k = 0;
        while k < n
            invariant
                n == ds.len(),
                ds == demands@,
                s == start,
                start < n,
                rows@.len() == n,
                k <= n,
                remaining <= before,
                total(prefill_part(ds, rows@)) + remaining == budget,
                lt >= 1,
                lp == 0,
                remaining > 0 ==> level_rows(ds, s, capacity, limits, rows@, lt, k as int),
                remaining == 0 ==> exists|p: int|
                    0 <= p <= n && level_rows(ds, s, capacity, limits, rows@, lt, p),
                progressed ==> remaining < before,
                !progressed ==> remaining == before,
                !progressed ==> forall|i: int|
                    0 <= i < n && prefill_selected(ds, s, capacity, limits, i) && rank(s, n as int, i)
                        < k ==> #[trigger] rows@[i] == ds[i].available_rows,
                forall|i: int|
                    0 <= i < n && ds[i].phase == Phase::Decode ==> #[trigger] rows@[i]
                        == decode_rows[i],
                forall|i: int|
                    0 <= i < n && ds[i].phase == Phase::Prefill && !prefill_selected(
                        ds,
                        s,
                        capacity,
                        limits,
                        i,
                    ) ==> #[trigger] rows@[i] == 0,
            ensures
                remaining == 0 || k == n,
            decreases n - k,
        {
            if remaining == 0 {
                break;
            }
            let idx = rotate(start, n, k);
            if rows[idx] > 0 && demands[idx].phase == Phase::Prefill && rows[idx]
                < demands[idx].available_rows {
                proof {
                    lemma_total_update(prefill_part(ds, rows@), idx as int, (rows@[idx as int] + 1) as usize);
                    assert(prefill_part(ds, rows@.update(idx as int, (rows@[idx as int] + 1) as usize))
                        =~= prefill_part(ds, rows@).update(idx as int, (rows@[idx as int] + 1) as usize));
                }
                let v = rows[idx] + 1;
                rows.set(idx, v);
                remaining -= 1;
                progressed = true;
            }
            proof {
                if remaining == 0 {
                    assert(level_rows(ds, s, capacity, limits, rows@, lt, k + 1));
                }
            }
            k += 1;
        }
        proof {
            if remaining == 0 {
                let p = choose|p: int| 0 <= p <= n && level_rows(ds, s, capacity, limits, rows@, lt, p);
                lp = p;
            } else {
                lemma_rotation(s, n as int);
                assert(level_rows(ds, s, capacity, limits, rows@, lt + 1, 0));
                lt = lt + 1;
            }
        }
        if !progressed {
            stalled = true;
        }
    }
    proof {
        let caps = selected_caps(ds, s, capacity, limits);
        let part = prefill_part(ds, rows@);
        assert forall|i: int| 0 <= i < n implies part[i] <= caps[i] by {
            if ds[i].phase == Phase::Prefill && prefill_selected(ds, s, capacity, limits, i) {
                assert(rows@[i] == min_int(
                    ds[i].available_rows as int,
                    lt + if rank(s, n as int, i) < lp {
                        1int
                    } else {
                        0int
                    },
                ));
            }
        }
        lemma_total_le(part, caps);
        if stalled {
            assert(part =~= caps);
        }
    }
    rows
}

} // verus!

verus! {

/// The allocations of the demands that hold rows, in rotation order.
pub fn allocations_in_order(demands: &[Demand], start: usize, rows: &Vec<usize>) -> (out: Vec<
    Allocation,
>)
    requires
        start < demands@.len(),
        rows@.len() == demands@.len(),
    ensures
        out@ == allocations_in_rotation(demands@, start as int, rows@, demands@.len() as int),
{
    let n = demands.len();
    let mut out: Vec<Allocation> = Vec::new();
    let mut k: usize = 0;
    while k < n
        invariant
            n == demands@.len(),
            start < n,
            rows@.len() == n,
            k <= n,
            out@ == allocations_in_rotation(demands@, start as int, rows@, k as int),
        decreases n - k,
    {
        let idx = rotate(start, n, k);
        if rows[idx] > 0 {
            let demand = &demands[idx];
            out.push(
                Allocation {
                    request_id: demand.request_id.clone(),
                    sequence_id: demand.sequence_id,
                    phase: demand.phase,
                    rows: rows[idx],
                },
            );
        }
        k += 1;
    }
    out
}

/// What an ordinary plan carries: the ordinary rows, in rotation order.
pub open spec fn ordinary_plan_spec(
    ds: Seq<Demand>,
    s: int,
    c: usize,
    limits: OrdinaryLimits,
    out: Seq<Allocation>,
) -> bool {
    exists|rows: Seq<usize>|
        ordinary_rows_spec(ds, s, c, limits, rows) && out == allocations_in_rotation(
            ds,
            s,
            rows,
            ds.len() as int,
        )
}

/// Plans one ordinary attention batch from the rotation that starts at `start`.
pub fn plan_ordinary(demands: &[Demand], start: usize, capacity: usize, limits: OrdinaryLimits) -> (out:
    Vec<Allocation>)
    requires
        start < demands@.len(),
        capacity > 0,
        forall|i: int|
            0 <= i < demands@.len() ==> (#[trigger] demands@[i]).phase == Phase::Prefill
                || demands@[i].phase == Phase::Decode,
        forall|i: int| 0 <= i < demands@.len() ==> (#[trigger] demands@[i]).available_rows >= 1,
    ensures
        ordinary_plan_spec(demands@, start as int, capacity, limits, out@),
{
    let rows = ordinary_rows(demands, start, capacity, limits);
    allocations_in_order(demands, start, &rows)
}

} // verus!
