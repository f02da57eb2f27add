//! Inside the served cohort, equal-width plans rotate: each plan resumes
//! after the last member the previous plan of that cohort served, so every
//! member of a cohort that stays the same is served within a bounded number
//! of its plans.
use crate::plan_equal::{
    cohort_choice, equal_plan_with, equal_selection, last_served, resume_position, EqualOutcome,
};
use crate::plan_ordinary::min_int;
use crate::scheduler::Demand;
use vstd::prelude::*;

verus! {

/// The cohort list `cs` of `ds` is strictly increasing by sequence id.
pub open spec fn ascending(ds: Seq<Demand>, cs: Seq<usize>) -> bool {
    &&& forall|p: int| 0 <= p < cs.len() ==> #[trigger] cs[p] < ds.len()
    &&& forall|p: int, q: int|
        0 <= p < q < cs.len() ==> ds[#[trigger] cs[p] as int].sequence_id < ds[#[trigger] cs[q] as int].sequence_id
}

/// The resume id a plan leaves behind when it served `take` members from
/// position `first`: one past the last member's sequence id, or 0 past the
/// largest id.
pub open spec fn resume_after(ds: Seq<Demand>, cs: Seq<usize>, first: int, take: int) -> u32 {
    let last = ds[last_served(cs, first, take) as int].sequence_id;
    if last == u32::MAX {
        0u32
    } else {
        (last + 1) as u32
    }
}

/// The position the `k`-th consecutive plan of one cohort starts from,
/// the first resuming from `resume`.
pub open spec fn rotation_first(ds: Seq<Demand>, cs: Seq<usize>, resume: u32, take: int, k: nat) -> int
    decreases k,
{
    if k == 0 {
        resume_position(ds, cs, resume, 0)
    } else {
        let f = rotation_first(ds, cs, resume, take, (k - 1) as nat);
        resume_position(ds, cs, resume_after(ds, cs, f, take), 0)
    }
}

/// Where the resume position lands: at the first position from `p` whose
/// id reaches `resume`, or 0 when none does.
proof fn lemma_resume_at(ds: Seq<Demand>, cs: Seq<usize>, resume: u32, p: int, r: int)
    requires
        0 <= p <= r <= cs.len(),
        forall|q: int| p <= q < r ==> ds[#[trigger] cs[q] as int].sequence_id < resume,
        r < cs.len() ==> ds[cs[r] as int].sequence_id >= resume,
    ensures
        resume_position(ds, cs, resume, p) == if r < cs.len() {
            r
        } else {
            0
        },
    decreases r - p,
{
    if p < r {
        lemma_resume_at(ds, cs, resume, p + 1, r);
    }
}

/// Each plan of a cohort starts `take` positions after the one before,
/// around the cohort.
proof fn lemma_rotation_step(ds: Seq<Demand>, cs: Seq<usize>, first: int, take: int)
    requires
        ascending(ds, cs),
        0 <= first < cs.len(),
        1 <= take <= cs.len(),
    ensures
        resume_position(ds, cs, resume_after(ds, cs, first, take), 0) == if first + take < cs.len() {
            first + take
        } else {
            first + take - cs.len()
        },
{
    let m = cs.len() as int;
    let p = if first + take - 1 < m {
        first + take - 1
    } else {
        first + take - 1 - m
    };
    assert(last_served(cs, first, take) == cs[p]);
    let last = ds[cs[p] as int].sequence_id;
    if last == u32::MAX {
        assert(p == m - 1) by {
            if p < m - 1 {
                assert(ds[cs[p] as int].sequence_id < ds[cs[p + 1] as int].sequence_id);
            }
        }
        lemma_resume_at(ds, cs, 0, 0, 0);
    } else {
        let resume = (last + 1) as u32;
        assert forall|q: int| 0 <= q < p + 1 implies ds[#[trigger] cs[q] as int].sequence_id < resume by {
            if q < p {
                assert(ds[cs[q] as int].sequence_id < ds[cs[p] as int].sequence_id);
            }
        }
        if p + 1 < m {
            assert(ds[cs[p] as int].sequence_id < ds[cs[p + 1] as int].sequence_id);
        }
        lemma_resume_at(ds, cs, resume, 0, p + 1);
    }
}

/// While the plans have moved less than one lap, the `k`-th plan of a
/// cohort starts `k * take` positions on from the first, around the cohort.
proof fn lemma_rotation_first(ds: Seq<Demand>, cs: Seq<usize>, resume: u32, take: int, k: nat)
    requires
        ascending(ds, cs),
        cs.len() > 0,
        1 <= take <= cs.len(),
        k * take < cs.len(),
    ensures
        rotation_first(ds, cs, resume, take, k) == if rotation_first(ds, cs, resume, take, 0) + k * take
            < cs.len() {
            rotation_first(ds, cs, resume, take, 0) + k * take
        } else {
            rotation_first(ds, cs, resume, take, 0) + k * take - cs.len()
        },
        0 <= rotation_first(ds, cs, resume, take, k) < cs.len(),
    decreases k,
{
    crate::plan_determinism::lemma_resume_range(ds, cs, resume, 0);
    if k == 0 {
        assert(k * take == 0) by (nonlinear_arith)
            requires
                k == 0,
        ;
    } else {
        let j = (k - 1) as nat;
        assert(k * take == j * take + take) by (nonlinear_arith)
            requires
                k == j + 1,
        ;
        assert(j * take >= 0) by (nonlinear_arith)
            requires
                take >= 1,
        ;
        lemma_rotation_first(ds, cs, resume, take, j);
        let f = rotation_first(ds, cs, resume, take, j);
        lemma_rotation_step(ds, cs, f, take);
        assert(rotation_first(ds, cs, resume, take, k) == resume_position(
            ds,
            cs,
            resume_after(ds, cs, f, take),
            0,
        ));
        let f0 = rotation_first(ds, cs, resume, take, 0);
        let a = j * take;
        assert(0 <= f0 < cs.len());
        if f0 + a < cs.len() {
            assert(f == f0 + a);
        } else {
            assert(f == f0 + a - cs.len());
        }
    }
}

/// Every member of a cohort that stays the same is served within
/// `ceil(m / take)` consecutive plans of that cohort, where `m` is its size
/// and `take` the members one plan takes: the plans walk the cohort in order
/// of sequence id, each resuming after the last member the one before
/// served, and wrap around. The `k`-th plan is among the first
/// `ceil(m / take)` exactly when `k * take < m`.
pub proof fn law_cohort_members_served_in_turn(ds: Seq<Demand>, cs: Seq<usize>, resume: u32, take: int, q: int)
    requires
        ascending(ds, cs),
        1 <= take <= cs.len(),
        0 <= q < cs.len(),
    ensures
        exists|k: nat|
            #![trigger rotation_first(ds, cs, resume, take, k)]
            k * take < cs.len() && equal_selection(cs, rotation_first(ds, cs, resume, take, k), take).contains(
                cs[q],
            ),
{
    let m = cs.len() as int;
    let f0 = rotation_first(ds, cs, resume, take, 0);
    crate::plan_determinism::lemma_resume_range(ds, cs, resume, 0);
    let d = if q >= f0 {
        q - f0
    } else {
        q - f0 + m
    };
    assert(0 <= d < m);
    vstd::arithmetic::div_mod::lemma_fundamental_div_mod(d, take);
    vstd::arithmetic::div_mod::lemma_div_pos_is_pos(d, take);
    let k = (d / take) as nat;
    vstd::arithmetic::div_mod::lemma_mod_bound(d, take);
    assert(k * take == take * (d / take)) by (nonlinear_arith)
        requires
            k == d / take,
    ;
    let off = d - k * take;
    assert(0 <= off < take);
    lemma_rotation_first(ds, cs, resume, take, k);
    let f = rotation_first(ds, cs, resume, take, k);
    let sel = equal_selection(cs, f, take);
    // q sits `off` positions after f, around the cohort.
    let at = if f + off < m {
        f + off
    } else {
        f + off - m
    };
    assert(at == q);
    if f + take <= m {
        assert(sel[off] == cs[at]);
    } else if f + off < m {
        assert(sel[(f + take - m) + off] == cs[at]);
    } else {
        assert(sel[f + off - m] == cs[at]);
    }
    assert(sel.contains(cs[q]));
}

/// An equal-width plan is one step of that rotation: its cohort list is
/// ascending, it serves the `take` members from the position its cohort's
/// resume id gives, and it leaves as that cohort's resume id the one past
/// the last member it served.
pub proof fn law_equal_plan_is_a_rotation_step(
    ds: Seq<Demand>,
    decode_runs: u32,
    prefill_resume: u32,
    decode_resume: u32,
    c: usize,
    cs: Seq<usize>,
    out: EqualOutcome,
)
    requires
        equal_plan_with(ds, decode_runs, prefill_resume, decode_resume, c, cs, out),
    ensures
        ({
            let resume = if out.serve_prefills {
                prefill_resume
            } else {
                decode_resume
            };
            let first = resume_position(ds, cs, resume, 0);
            let take = min_int(c as int, cs.len() as int);
            &&& ascending(ds, cs)
            &&& out.serve_prefills == cohort_choice(ds, decode_runs).0
            &&& out.resume == resume_after(ds, cs, first, take)
            &&& out.allocations@.len() == equal_selection(cs, first, take).len()
            &&& forall|k: int|
                0 <= k < out.allocations@.len() ==> (#[trigger] out.allocations@[k]).sequence_id
                    == ds[equal_selection(cs, first, take)[k] as int].sequence_id
        }),
{
}

} // verus!
