//! Planning a speculative (Verify/Replay) round. An atomic transaction must
//! stay inside one physical UBATCH: every member shares the width of the
//! first atomic demand the rotation reaches, so llama.cpp never splits a
//! group. Atomic rows trail the ordinary rows that may share the batch.
use crate::plan_ordinary::min_int;
use crate::plan_equal::{allocations_at, allocations_at_width};
use crate::scheduler::{index_at, lemma_rotation, rank, Allocation, Demand, Phase, SchedulerError};
use vstd::prelude::*;

verus! {

/// Indices satisfying `f` among rotation positions `0..k`.
pub open spec fn count_where(ds: Seq<Demand>, s: int, k: int, f: spec_fn(int) -> bool) -> int
    decreases k,
{
    if k <= 0 {
        0
    } else {
        count_where(ds, s, k - 1, f) + if f(index_at(s, ds.len() as int, k - 1)) {
            1int
        } else {
            0int
        }
    }
}

/// The indices satisfying `f` at rotation positions `0..k`, in rotation order.
pub open spec fn rotation_pick(ds: Seq<Demand>, s: int, k: int, f: spec_fn(int) -> bool) -> Seq<
    usize,
>
    decreases k,
{
    if k <= 0 {
        Seq::empty()
    } else {
        let prior = rotation_pick(ds, s, k - 1, f);
        let i = index_at(s, ds.len() as int, k - 1);
        if f(i) {
            prior.push(i as usize)
        } else {
            prior
        }
    }
}

/// The first rotation position at or after `k` that holds an atomic demand.
pub open spec fn first_atomic_from(ds: Seq<Demand>, s: int, k: int) -> int
    decreases ds.len() - k,
{
    if k < 0 || k >= ds.len() {
        k
    } else if ds[index_at(s, ds.len() as int, k)].atomic {
        k
    } else {
        first_atomic_from(ds, s, k + 1)
    }
}

/// The atomic demand that seeds the round.
pub open spec fn seed(ds: Seq<Demand>, s: int) -> int {
    index_at(s, ds.len() as int, first_atomic_from(ds, s, 0))
}

/// An atomic demand of the round's width.
pub open spec fn atomic_of_width(ds: Seq<Demand>, w: int) -> spec_fn(int) -> bool {
    |i: int| ds[i].atomic && ds[i].available_rows == w
}

/// An ordinary demand that may share the round at width `w`.
pub open spec fn ordinary_compatible(ds: Seq<Demand>, w: int, exclusive: bool) -> spec_fn(
    int,
) -> bool {
    |i: int|
        !exclusive && !ds[i].atomic && match ds[i].phase {
            Phase::Prefill => ds[i].available_rows >= w,
            Phase::Decode => w == 1,
            _ => false,
        }
}

/// The first `limit` indices satisfying `f`, in rotation order.
pub open spec fn first_of(ds: Seq<Demand>, s: int, f: spec_fn(int) -> bool, limit: int) -> spec_fn(
    int,
) -> bool {
    |i: int| f(i) && count_where(ds, s, rank(s, ds.len() as int, i), f) < limit
}

/// How many atomic members the round may take: the negotiated limit, and
/// no more than fit in the capacity at the round's width.
pub open spec fn atomic_limit(c: int, w: int, max_atomic: int) -> int {
    min_int(max_atomic, c / w)
}

/// The members of a round without equal-width constraints: ordinary rows
/// that fit beside the atomic group, then the atomic group.
pub open spec fn mixed_members(
    ds: Seq<Demand>,
    s: int,
    c: int,
    w: int,
    max_atomic: int,
    exclusive: bool,
) -> Seq<usize> {
    let n = ds.len() as int;
    let lim = atomic_limit(c, w, max_atomic);
    let a = min_int(count_where(ds, s, n, atomic_of_width(ds, w)), lim);
    let room = (c - a * w) / w;
    rotation_pick(ds, s, n, first_of(ds, s, ordinary_compatible(ds, w, exclusive), room))
        + rotation_pick(ds, s, n, first_of(ds, s, atomic_of_width(ds, w), lim))
}

/// A demand that may join the contiguous equal-width run.
pub open spec fn run_candidate(ds: Seq<Demand>, w: int, exclusive: bool, i: int) -> bool {
    (ds[i].atomic && ds[i].available_rows == w) || ordinary_compatible(ds, w, exclusive)(i)
}

/// The candidate holding sequence id `id`, if there is one.
pub open spec fn candidate_at(ds: Seq<Demand>, w: int, exclusive: bool, id: int) -> Option<int> {
    if exists|i: int|
        0 <= i < ds.len() && ds[i].sequence_id == id && run_candidate(ds, w, exclusive, i) {
        Some(
            choose|i: int|
                0 <= i < ds.len() && ds[i].sequence_id == id && run_candidate(ds, w, exclusive, i),
        )
    } else {
        None
    }
}

/// The growing id range `low..=high` of an equal-width round.
pub struct Run {
    pub low: int,
    pub high: int,
    pub lower_open: bool,
    pub upper_open: bool,
    pub atomic_count: int,
}

pub open spec fn run_len(g: Run) -> int {
    g.high - g.low + 1
}

/// Whether the candidate at `id` may join given the atomic budget.
pub open spec fn may_join(
    ds: Seq<Demand>,
    w: int,
    exclusive: bool,
    max_atomic: int,
    ac: int,
    id: int,
) -> bool {
    &&& 0 <= id <= u32::MAX
    &&& candidate_at(ds, w, exclusive, id) is Some
    &&& (!ds[candidate_at(ds, w, exclusive, id)->0].atomic || ac < max_atomic)
}

pub open spec fn atomic_at(ds: Seq<Demand>, w: int, exclusive: bool, id: int) -> int {
    if candidate_at(ds, w, exclusive, id) matches Some(i) && ds[i].atomic {
        1
    } else {
        0
    }
}

/// One round of growth: try one id below, then (room permitting) one above.
pub open spec fn grow_step(
    ds: Seq<Demand>,
    w: int,
    exclusive: bool,
    max_seq: int,
    max_atomic: int,
    g: Run,
) -> (Run, bool) {
    let (g1, added1) = if g.lower_open {
        if may_join(ds, w, exclusive, max_atomic, g.atomic_count, g.low - 1) {
            (
                Run {
                    low: g.low - 1,
                    atomic_count: g.atomic_count + atomic_at(ds, w, exclusive, g.low - 1),
                    ..g
                },
                true,
            )
        } else {
            (Run { lower_open: false, ..g }, false)
        }
    } else {
        (g, false)
    };
    if run_len(g1) < max_seq && g1.upper_open {
        if may_join(ds, w, exclusive, max_atomic, g1.atomic_count, g1.high + 1) {
            (
                Run {
                    high: g1.high + 1,
                    atomic_count: g1.atomic_count + atomic_at(ds, w, exclusive, g1.high + 1),
                    ..g1
                },
                true,
            )
        } else {
            (Run { upper_open: false, ..g1 }, added1)
        }
    } else {
        (g1, added1)
    }
}

/// Grows the run until it is full, both ends are closed, or a round adds nothing.
pub open spec fn grow(
    ds: Seq<Demand>,
    w: int,
    exclusive: bool,
    max_seq: int,
    max_atomic: int,
    g: Run,
) -> Run
    decreases max_seq - run_len(g),
{
    if run_len(g) < max_seq && (g.lower_open || g.upper_open) {
        let (g1, added) = grow_step(ds, w, exclusive, max_seq, max_atomic, g);
        if added && run_len(g) < run_len(g1) <= max_seq {
            grow(ds, w, exclusive, max_seq, max_atomic, g1)
        } else {
            g1
        }
    } else {
        g
    }
}

/// The run an equal-width round settles on, grown around the seed.
pub open spec fn equal_run(ds: Seq<Demand>, s: int, c: int, max_atomic: int, exclusive: bool) -> Run {
    let f = seed(ds, s);
    let w = ds[f].available_rows as int;
    let id = ds[f].sequence_id as int;
    grow(
        ds,
        w,
        exclusive,
        c / w,
        max_atomic,
        Run { low: id, high: id, lower_open: true, upper_open: true, atomic_count: 1 },
    )
}

/// The members of the run, by ascending id.
pub open spec fn run_members(ds: Seq<Demand>, w: int, exclusive: bool, g: Run) -> Seq<usize> {
    Seq::new(
        run_len(g) as nat,
        |k: int| candidate_at(ds, w, exclusive, g.low + k)->0 as usize,
    )
}

} // verus!

verus! {

/// Demand lists an atomic round accepts.
pub open spec fn atomic_inputs(ds: Seq<Demand>) -> bool {
    &&& ds.len() > 0
    &&& forall|i: int| 0 <= i < ds.len() ==> (#[trigger] ds[i]).available_rows >= 1
    &&& forall|i: int|
        0 <= i < ds.len() ==> (#[trigger] ds[i]).atomic == (ds[i].phase == Phase::Verify
            || ds[i].phase == Phase::Replay)
    &&& forall|i: int, j: int|
        0 <= i < ds.len() && 0 <= j < ds.len() && i != j ==> ds[i].sequence_id
            != ds[j].sequence_id
    &&& exists|i: int| 0 <= i < ds.len() && ds[i].atomic
}

fn find_seed(demands: &[Demand], start: usize) -> (f: usize)
    requires
        atomic_inputs(demands@),
        start < demands@.len(),
    ensures
        f == seed(demands@, start as int),
        f < demands@.len(),
        demands@[f as int].atomic,
{
    let ghost ds = demands@;
    let ghost s = start as int;
    let n = demands.len();
    proof {
        lemma_rotation(s, n as int);
    }
    let mut k: usize = 0;
    while k < n
        invariant
            n == ds.len(),
            ds == demands@,
            s == start,
            start < n,
            k <= n,
            first_atomic_from(ds, s, 0) == first_atomic_from(ds, s, k as int),
            forall|q: int| 0 <= q < k ==> !ds[#[trigger] index_at(s, n as int, q)].atomic,
        decreases n - k,
    {
        let idx = if start < n - k {
            start + k
        } else {
            start - (n - k)
        };
        assert(idx == index_at(s, n as int, k as int));
        if demands[idx].atomic {
            return idx;
        }
        assert(first_atomic_from(ds, s, k as int) == first_atomic_from(ds, s, k + 1));
        k += 1;
    }
    proof {
        let i = choose|i: int| 0 <= i < ds.len() && ds[i].atomic;
        assert(!ds[index_at(s, n as int, rank(s, n as int, i))].atomic);
    }
    0
}

/// The first `limit` indices of the rotation that satisfy `f`, where `f`
/// is given by `atomic_only` (an atomic demand of width `w`) or otherwise
/// by ordinary compatibility at width `w`.
fn pick(
    demands: &[Demand],
    start: usize,
    w: usize,
    atomic_only: bool,
    exclusive: bool,
    limit: usize,
) -> (picked: Vec<usize>)
    requires
        start < demands@.len(),
    ensures
        picked@ == rotation_pick(
            demands@,
            start as int,
            demands@.len() as int,
            first_of(
                demands@,
                start as int,
                if atomic_only {
                    atomic_of_width(demands@, w as int)
                } else {
                    ordinary_compatible(demands@, w as int, exclusive)
                },
                limit as int,
            ),
        ),
        picked@.len() == min_int(
            count_where(
                demands@,
                start as int,
                demands@.len() as int,
                if atomic_only {
                    atomic_of_width(demands@, w as int)
                } else {
                    ordinary_compatible(demands@, w as int, exclusive)
                },
            ),
            limit as int,
        ),
        forall|p: int| 0 <= p < picked@.len() ==> #[trigger] picked@[p] < demands@.len(),
{
    let ghost ds = demands@;
    let ghost s = start as int;
    let ghost f = if atomic_only {
        atomic_of_width(ds, w as int)
    } else {
        ordinary_compatible(ds, w as int, exclusive)
    };
    let n = demands.len();
    proof {
        lemma_rotation(s, n as int);
    }
    let mut picked: Vec<usize> = Vec::new();
    let mut k: usize = 0;
    while k < n
        invariant
            n == ds.len(),
            ds == demands@,
            s == start,
            start < n,
            k <= n,
            f == (if atomic_only {
                atomic_of_width(ds, w as int)
            } else {
                ordinary_compatible(ds, w as int, exclusive)
            }),
            picked@ == rotation_pick(ds, s, k as int, first_of(ds, s, f, limit as int)),
            picked@.len() == min_int(count_where(ds, s, k as int, f), limit as int),
            forall|p: int| 0 <= p < picked@.len() ==> #[trigger] picked@[p] < n,
            forall|q: int| 0 <= q < n ==> 0 <= #[trigger] index_at(s, n as int, q) < n && rank(s, n as int, index_at(s, n as int, q)) == q,
        decreases n - k,
    {
        let idx = if start < n - k {
            start + k
        } else {
            start - (n - k)
        };
        let d = &demands[idx];
        let hit = if atomic_only {
            d.atomic && d.available_rows == w
        } else {
            !exclusive && !d.atomic && match d.phase {
                Phase::Prefill => d.available_rows >= w,
                Phase::Decode => w == 1,
                _ => false,
            }
        };
        assert(idx == index_at(s, n as int, k as int));
        assert(hit == f(idx as int));
        proof {
            lemma_count_where_nonneg(ds, s, k as int, f);
            assert(count_where(ds, s, k + 1, f) == count_where(ds, s, k as int, f) + if f(idx as int) {
                1int
            } else {
                0int
            });
            assert(first_of(ds, s, f, limit as int)(idx as int) == (hit && picked@.len() < limit));
        }
        if hit && picked.len() < limit {
            picked.push(idx);
        }
        k += 1;
    }
    picked
}

pub proof fn lemma_count_where_nonneg(ds: Seq<Demand>, s: int, k: int, f: spec_fn(int) -> bool)
    ensures
        0 <= count_where(ds, s, k, f) <= if k < 0 { 0 } else { k },
    decreases k,
{
    if k > 0 {
        lemma_count_where_nonneg(ds, s, k - 1, f);
    }
}

} // verus!

verus! {

fn find_candidate(demands: &[Demand], w: usize, exclusive: bool, id: u32) -> (r: Option<usize>)
    requires
        atomic_inputs(demands@),
    ensures
        r matches Some(i) ==> candidate_at(demands@, w as int, exclusive, id as int) == Some(i as int)
            && i < demands@.len(),
        r is None ==> candidate_at(demands@, w as int, exclusive, id as int) is None,
{
    let ghost ds = demands@;
    let n = demands.len();
    let mut i: usize = 0;
    while i < n
        invariant
            n == ds.len(),
            ds == demands@,
            atomic_inputs(ds),
            i <= n,
            forall|j: int|
                0 <= j < i ==> !(ds[j].sequence_id == id && run_candidate(ds, w as int, exclusive, j)),
        decreases n - i,
    {
        let d = &demands[i];
        let ordinary = !exclusive && !d.atomic && match d.phase {
            Phase::Prefill => d.available_rows >= w,
            Phase::Decode => w == 1,
            _ => false,
        };
        let candidate = (d.atomic && d.available_rows == w) || ordinary;
        assert(candidate == run_candidate(ds, w as int, exclusive, i as int));
        if d.sequence_id == id && candidate {
            proof {
                let c = choose|c: int|
                    0 <= c < ds.len() && ds[c].sequence_id == id && run_candidate(
                        ds,
                        w as int,
                        exclusive,
                        c,
                    );
                assert(c == i);
            }
            return Some(i);
        }
        i += 1;
    }
    None
}

/// The run of an equal-width round, as exact u32 bounds.
fn grow_run(
    demands: &[Demand],
    w: usize,
    exclusive: bool,
    max_seq: usize,
    max_atomic: usize,
    seed_id: u32,
    seed_atomic: bool,
) -> (r: (u32, u32))
    requires
        atomic_inputs(demands@),
        max_seq >= 1,
        max_atomic >= 1,
        seed_atomic,
    ensures
        ({
            let g = grow(
                demands@,
                w as int,
                exclusive,
                max_seq as int,
                max_atomic as int,
                Run {
                    low: seed_id as int,
                    high: seed_id as int,
                    lower_open: true,
                    upper_open: true,
                    atomic_count: 1,
                },
            );
            &&& r.0 as int == g.low
            &&& r.1 as int == g.high
            &&& r.0 <= seed_id <= r.1
            &&& forall|id: int|
                r.0 <= id <= r.1 && id != seed_id ==> (#[trigger] candidate_at(
                    demands@,
                    w as int,
                    exclusive,
                    id,
                )) is Some
        }),
{
    let ghost ds = demands@;
    let ghost target = grow(
        ds,
        w as int,
        exclusive,
        max_seq as int,
        max_atomic as int,
        Run { low: seed_id as int, high: seed_id as int, lower_open: true, upper_open: true, atomic_count: 1 },
    );
    let mut low = seed_id;
    let mut high = seed_id;
    let mut lower_open = true;
    let mut upper_open = true;
    let mut atomic_count: usize = 1;
    let mut len: usize = 1;
    loop
        invariant
            ds == demands@,
            atomic_inputs(ds),
            max_seq >= 1,
            low <= seed_id <= high,
            len == high - low + 1,
            len <= max_seq,
            atomic_count <= max_atomic,
            grow(
                ds,
                w as int,
                exclusive,
                max_seq as int,
                max_atomic as int,
                Run {
                    low: low as int,
                    high: high as int,
                    lower_open,
                    upper_open,
                    atomic_count: atomic_count as int,
                },
            ) == target,
            forall|id: int|
                low <= id <= high && id != seed_id ==> (#[trigger] candidate_at(
                    ds,
                    w as int,
                    exclusive,
                    id,
                )) is Some,
        ensures
            low as int == target.low,
            high as int == target.high,
            low <= seed_id <= high,
            forall|id: int|
                low <= id <= high && id != seed_id ==> (#[trigger] candidate_at(
                    ds,
                    w as int,
                    exclusive,
                    id,
                )) is Some,
        decreases max_seq - len,
    {
        let ghost g = Run {
            low: low as int,
            high: high as int,
            lower_open,
            upper_open,
            atomic_count: atomic_count as int,
        };
        if !(len < max_seq && (lower_open || upper_open)) {
            break ;
        }
        let mut added = false;
        if lower_open {
            let next = if low > 0 {
                find_candidate(demands, w, exclusive, low - 1)
            } else {
                None
            };
            let join = match next {
                Some(i) => !demands[i].atomic || atomic_count < max_atomic,
                None => false,
            };
            if join {
                let i = next.unwrap();
                low = low - 1;
                if demands[i].atomic {
                    atomic_count += 1;
                }
                len += 1;
                added = true;
            } else {
                lower_open = false;
            }
        }
        let ghost g1 = Run {
            low: low as int,
            high: high as int,
            lower_open,
            upper_open,
            atomic_count: atomic_count as int,
        };
        assert(grow_step(ds, w as int, exclusive, max_seq as int, max_atomic as int, g).0.low == g1.low);
        if len < max_seq && upper_open {
            let next = if high < u32::MAX {
                find_candidate(demands, w, exclusive, high + 1)
            } else {
                None
            };
            let join = match next {
                Some(i) => !demands[i].atomic || atomic_count < max_atomic,
                None => false,
            };
            if join {
                let i = next.unwrap();
                high = high + 1;
                if demands[i].atomic {
                    atomic_count += 1;
                }
                len += 1;
                added = true;
            } else {
                upper_open = false;
            }
        }
        let ghost g2 = Run {
            low: low as int,
            high: high as int,
            lower_open,
            upper_open,
            atomic_count: atomic_count as int,
        };
        assert(grow_step(ds, w as int, exclusive, max_seq as int, max_atomic as int, g) == (g2, added));
        if !added {
            break ;
        }
    }
    (low, high)
}

} // verus!

verus! {

/// What an atomic round is: refused when the seed cannot fit; otherwise the
/// mixed members, or the contiguous equal-width run, all at the seed's width.
pub open spec fn atomic_plan_spec(
    ds: Seq<Demand>,
    s: int,
    c: int,
    equal: bool,
    max_atomic: int,
    exclusive: bool,
    r: Result<Vec<Allocation>, SchedulerError>,
) -> bool {
    let w = ds[seed(ds, s)].available_rows as int;
    if w > c {
        r == Err::<Vec<Allocation>, SchedulerError>(SchedulerError::AtomicDemandExceedsCapacity)
    } else if equal {
        r matches Ok(out) && out@ == allocations_at_width(
            ds,
            run_members(ds, w, exclusive, equal_run(ds, s, c, max_atomic, exclusive)),
            w,
        )
    } else {
        r matches Ok(out) && out@ == allocations_at_width(
            ds,
            mixed_members(ds, s, c, w, max_atomic, exclusive),
            w,
        )
    }
}

/// Plans one speculative round from the rotation that starts at `start`.
pub fn plan_atomic(
    demands: &[Demand],
    start: usize,
    capacity: usize,
    equal: bool,
    max_atomic: usize,
    exclusive: bool,
) -> (r: Result<Vec<Allocation>, SchedulerError>)
    requires
        atomic_inputs(demands@),
        start < demands@.len(),
        capacity > 0,
        max_atomic > 0,
    ensures
        atomic_plan_spec(demands@, start as int, capacity as int, equal, max_atomic as int, exclusive, r),
{
    let ghost ds = demands@;
    let ghost s = start as int;
    let f = find_seed(demands, start);
    let w = demands[f].available_rows;
    if w > capacity {
        return Err(SchedulerError::AtomicDemandExceedsCapacity);
    }
    let max_seq = capacity / w;
    proof {
        assert(max_seq >= 1) by (nonlinear_arith)
            requires
                max_seq == capacity / w,
                1 <= w <= capacity,
        ;
    }
    if equal {
        let seed_id = demands[f].sequence_id;
        proof {
            assert(run_candidate(ds, w as int, exclusive, f as int));
            let c = choose|c: int|
                0 <= c < ds.len() && ds[c].sequence_id == seed_id && run_candidate(
                    ds,
                    w as int,
                    exclusive,
                    c,
                );
            assert(c == f);
            assert(candidate_at(ds, w as int, exclusive, seed_id as int) == Some(f as int));
        }
        let (low, high) = grow_run(demands, w, exclusive, max_seq, max_atomic, seed_id, true);
        let ghost g = equal_run(ds, s, capacity as int, max_atomic as int, exclusive);
        let mut sel: Vec<usize> = Vec::new();
        let mut id = low;
        loop
            invariant_except_break
                sel@ == run_members(ds, w as int, exclusive, g).subrange(0, id - low),
            invariant
                ds == demands@,
                atomic_inputs(ds),
                low <= id <= high,
                g.low == low,
                g.high == high,
                candidate_at(ds, w as int, exclusive, seed_id as int) == Some(f as int),
                forall|x: int|
                    low <= x <= high && x != seed_id ==> (#[trigger] candidate_at(
                        ds,
                        w as int,
                        exclusive,
                        x,
                    )) is Some,
                forall|p: int| 0 <= p < sel@.len() ==> #[trigger] sel@[p] < ds.len(),
            ensures
                sel@ == run_members(ds, w as int, exclusive, g),
                forall|p: int| 0 <= p < sel@.len() ==> #[trigger] sel@[p] < ds.len(),
            decreases high - id,
        {
            let found = find_candidate(demands, w, exclusive, id);
            let i = found.unwrap();
            let ghost before = sel@;
            sel.push(i);
            proof {
                assert(sel@ =~= run_members(ds, w as int, exclusive, g).subrange(0, id - low + 1));
            }
            if id == high {
                assert(sel@ =~= run_members(ds, w as int, exclusive, g));
                break ;
            }
            id += 1;
        }
        return Ok(allocations_at(demands, &sel, w));
    }
    let limit = if max_atomic < max_seq {
        max_atomic
    } else {
        max_seq
    };
    let atomic = pick(demands, start, w, true, exclusive, limit);
    let a = atomic.len();
    proof {
        assert(a * w <= capacity) by (nonlinear_arith)
            requires
                a <= max_seq,
                max_seq == capacity / w,
                1 <= w,
        ;
    }
    let room = (capacity - a * w) / w;
    let ordinary = pick(demands, start, w, false, exclusive, room);
    let mut sel = ordinary;
    let mut k: usize = 0;
    let ghost head = sel@;
    while k < atomic.len()
        invariant
            k <= atomic@.len(),
            sel@ == head + atomic@.subrange(0, k as int),
            forall|p: int| 0 <= p < head.len() ==> #[trigger] head[p] < ds.len(),
            forall|p: int| 0 <= p < atomic@.len() ==> #[trigger] atomic@[p] < ds.len(),
        decreases atomic@.len() - k,
    {
        sel.push(atomic[k]);
        k += 1;
    }
    proof {
        assert(atomic@.subrange(0, atomic@.len() as int) =~= atomic@);
        assert forall|p: int| 0 <= p < sel@.len() implies #[trigger] sel@[p] < ds.len() by {
            if p >= head.len() {
                assert(sel@[p] == atomic@[p - head.len()]);
            }
        }
    }
    Ok(allocations_at(demands, &sel, w))
}

} // verus!
