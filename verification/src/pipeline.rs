//! Ordinary attention's bounded pipeline policy. Model execution, KV
//! authority and edge storage belong to the worker and its ledgers; these
//! values cannot grant them.
use crate::scheduler::{Demand, OrdinaryLimits, Phase, SchedulerError};
use vstd::prelude::*;

verus! {

/// Maximum intentional decode-only coalescing delay, not a native/RPC SLO.
pub const DECODE_COALESCE_WAIT_MS: u64 = 2;

#[derive(Clone, Copy, Debug, PartialEq, Eq)]
pub struct PipelinePolicy {
    /// Optional profiled total token budget while generation is active.
    /// Unlike mixed_prefill_rows this includes the selected decode rows.
    pub mixed_batch_rows: Option<usize>,
    /// Prefill rows allowed while any request is decoding, including a decode
    /// currently in flight. Pure-prefill can use the full ordinary token
    /// budget. This is a non-preemptive work quantum, not a latency promise.
    pub mixed_prefill_rows: usize,
}

/// Session-local admitted requests, counted before eligibility filtering.
#[derive(Clone, Copy, Debug, Default, PartialEq, Eq, Structural)]
pub struct PhasePopulation {
    pub ready: usize,
    pub in_flight: usize,
    pub waiting: usize,
}

#[derive(Clone, Copy, Debug, Default, PartialEq, Eq, Structural)]
pub struct PipelinePopulation {
    /// Requests with unissued prompt tokens, including an outstanding chunk.
    pub prefill: PhasePopulation,
    pub decode: PhasePopulation,
    /// All prompt tokens issued, final prompt work not settled. These
    /// requests cannot supply another prefill chunk and do not enlarge
    /// prefill cohorts.
    pub prefill_draining: usize,
}

#[derive(Clone, Copy, Debug, PartialEq, Eq)]
pub struct PipelineSelection {
    pub window: usize,
    pub open: usize,
    pub decoding_active: bool,
    pub mixed_prefill_rows: usize,
    pub effective_limits: OrdinaryLimits,
    /// Absent in historical observations made before timer-backed pacing.
    pub decode_coalesce_max_ms: Option<u64>,
    pub population: Option<PipelinePopulation>,
    /// Desired independent prefill groups inside the existing finite window.
    /// This is not a reservation or a measured optimal flight target.
    pub prefill_groups: Option<usize>,
    pub decode_groups: Option<usize>,
    pub mixed_batch_rows: Option<usize>,
}

/// Requests of one phase: ready, in flight and waiting.
pub open spec fn active_count(p: PhasePopulation) -> int {
    p.ready + p.in_flight + p.waiting
}

/// Ready demands of phase `ph`.
pub open spec fn ready_count(ds: Seq<Demand>, ph: Phase) -> int
    decreases ds.len(),
{
    if ds.len() == 0 {
        0
    } else {
        ready_count(ds.drop_last(), ph) + if ds.last().phase == ph {
            1int
        } else {
            0int
        }
    }
}

pub open spec fn ceil_div(a: int, b: int) -> int {
    if a % b == 0 {
        a / b
    } else {
        a / b + 1
    }
}

pub open spec fn max_int(a: int, b: int) -> int {
    if a >= b {
        a
    } else {
        b
    }
}

pub open spec fn min_of(a: int, b: int) -> int {
    if a <= b {
        a
    } else {
        b
    }
}

/// A configured limit where zero means "derive it", capped by the derived value.
pub open spec fn capped(configured: usize, derived: int) -> int {
    if configured == 0 {
        derived
    } else {
        min_of(configured as int, derived)
    }
}

impl PhasePopulation {
    /// Requests of this phase in any state; refused when the count overflows.
    pub fn active(self) -> (r: Result<usize, SchedulerError>)
        ensures
            active_count(self) <= usize::MAX ==> r == Ok::<usize, SchedulerError>(
                active_count(self) as usize,
            ),
            active_count(self) > usize::MAX ==> r == Err::<usize, SchedulerError>(
                SchedulerError::InvalidDemand,
            ),
    {
        match self.ready.checked_add(self.in_flight) {
            Some(n) => match n.checked_add(self.waiting) {
                Some(total) => Ok(total),
                None => Err(SchedulerError::InvalidDemand),
            },
            None => Err(SchedulerError::InvalidDemand),
        }
    }
}

fn count_ready(demands: &[Demand], phase: Phase) -> (r: usize)
    ensures
        r == ready_count(demands@, phase),
{
    let mut n: usize = 0;
    let mut i: usize = 0;
    while i < demands.len()
        invariant
            i <= demands@.len(),
            n == ready_count(demands@.subrange(0, i as int), phase),
            n <= i,
        decreases demands@.len() - i,
    {
        proof {
            assert(demands@.subrange(0, i + 1).drop_last() =~= demands@.subrange(0, i as int));
        }
        if demands[i].phase == phase {
            n += 1;
        }
        i += 1;
    }
    assert(demands@.subrange(0, demands@.len() as int) =~= demands@);
    n
}

fn div_ceil_exec(a: usize, b: usize) -> (r: usize)
    requires
        b > 0,
    ensures
        r == ceil_div(a as int, b as int),
{
    let q = a / b;
    if a % b == 0 {
        q
    } else {
        proof {
            assert(q < a || a == 0) by (nonlinear_arith)
                requires
                    q == a / b,
                    b > 0,
                    a % b != 0,
            ;
        }
        q + 1
    }
}

fn cap(configured: usize, derived: usize) -> (r: usize)
    ensures
        r == capped(configured, derived as int),
{
    if configured == 0 {
        derived
    } else if configured < derived {
        configured
    } else {
        derived
    }
}

/// What `select` decides for a consistent population: the derived member
/// widths, each capped by any configured limit, and the mixed quantum while
/// any request is decoding.
pub open spec fn selection_spec(
    policy: PipelinePolicy,
    configured: OrdinaryLimits,
    window: usize,
    open: usize,
    population: PipelinePopulation,
    out: PipelineSelection,
) -> bool {
    let active_prefill = active_count(population.prefill);
    let active_decode = active_count(population.decode);
    let decoding = active_decode > 0;
    let decode_groups = min_of(active_decode, window as int);
    let decode_members = max_int(ceil_div(active_decode, max_int(decode_groups, 1)), 1);
    let prefill_groups = min_of(active_prefill, window as int);
    let prefill_population = active_prefill + population.prefill_draining;
    let prefill_members = min_of(
        max_int(ceil_div(prefill_population, window as int), 1),
        max_int(active_prefill, 1),
    );
    &&& out.window == window
    &&& out.open == open
    &&& out.decoding_active == decoding
    &&& out.mixed_prefill_rows == policy.mixed_prefill_rows
    &&& out.effective_limits.prefill_members == capped(configured.prefill_members, prefill_members)
    &&& out.effective_limits.decode_members == capped(configured.decode_members, decode_members)
    &&& out.effective_limits.prefill_rows == if decoding {
        capped(configured.prefill_rows, policy.mixed_prefill_rows as int)
    } else {
        configured.prefill_rows as int
    }
    &&& out.decode_coalesce_max_ms == Some(DECODE_COALESCE_WAIT_MS)
    &&& out.population == Some(population)
    &&& out.prefill_groups == Some(prefill_groups as usize)
    &&& out.decode_groups == Some(decode_groups as usize)
    &&& out.mixed_batch_rows == policy.mixed_batch_rows
}

/// The inputs `select` refuses.
pub open spec fn selection_refused(
    policy: PipelinePolicy,
    ds: Seq<Demand>,
    window: usize,
    open: usize,
    population: PipelinePopulation,
) -> bool {
    ||| window == 0
    ||| open >= window
    ||| policy.mixed_prefill_rows == 0
    ||| policy.mixed_batch_rows == Some(0usize)
    ||| population.prefill.ready != ready_count(ds, Phase::Prefill)
    ||| population.decode.ready != ready_count(ds, Phase::Decode)
    ||| active_count(population.prefill) > usize::MAX
    ||| active_count(population.decode) > usize::MAX
    ||| active_count(population.prefill) + population.prefill_draining > usize::MAX
}

impl PipelinePolicy {
    /// Keep prefill membership independent of transient free slots. Requests
    /// already in flight still belong to the population of unfinished
    /// prompts. Row width, execution and all resource admission remain
    /// separate.
    pub fn select(
        self,
        demands: &[Demand],
        configured: OrdinaryLimits,
        window: usize,
        open: usize,
        population: PipelinePopulation,
    ) -> (r: Result<PipelineSelection, SchedulerError>)
        ensures
            selection_refused(self, demands@, window, open, population) ==> r == Err::<
                PipelineSelection,
                SchedulerError,
            >(SchedulerError::InvalidDemand),
            !selection_refused(self, demands@, window, open, population) ==> (r matches Ok(out)
                && selection_spec(self, configured, window, open, population, out)),
    {
        if window == 0 || open >= window || self.mixed_prefill_rows == 0
            || self.mixed_batch_rows == Some(0usize) {
            return Err(SchedulerError::InvalidDemand);
        }
        if population.prefill.ready != count_ready(demands, Phase::Prefill)
            || population.decode.ready != count_ready(demands, Phase::Decode) {
            return Err(SchedulerError::InvalidDemand);
        }
        let active_prefill = population.prefill.active()?;
        let active_decode = population.decode.active()?;
        let decoding_active = active_decode > 0;
        let decode_groups = if active_decode < window {
            active_decode
        } else {
            window
        };
        let decode_divisor = if decode_groups > 1 {
            decode_groups
        } else {
            1
        };
        let decode_share = div_ceil_exec(active_decode, decode_divisor);
        let decode_members = if decode_share > 1 {
            decode_share
        } else {
            1
        };
        let prefill_groups = if active_prefill < window {
            active_prefill
        } else {
            window
        };
        // Final prompt chunks still occupy their original pipeline cohorts.
        // Keep initial width stable until their results turn into decode work.
        let prefill_population = match active_prefill.checked_add(population.prefill_draining) {
            Some(n) => n,
            None => return Err(SchedulerError::InvalidDemand),
        };
        let prefill_share = div_ceil_exec(prefill_population, window);
        let at_least_one = if prefill_share > 1 {
            prefill_share
        } else {
            1
        };
        let prefill_cap = if active_prefill > 1 {
            active_prefill
        } else {
            1
        };
        let prefill_members = if at_least_one < prefill_cap {
            at_least_one
        } else {
            prefill_cap
        };
        let mut limits = configured;
        limits.prefill_members = cap(configured.prefill_members, prefill_members);
        // Keep generation cohorts independent even after prefill has ended.
        // Population, not a simultaneous return or the last vacancy, sets width.
        limits.decode_members = cap(configured.decode_members, decode_members);
        if decoding_active {
            limits.prefill_rows = cap(configured.prefill_rows, self.mixed_prefill_rows);
        }
        Ok(
            PipelineSelection {
                window,
                open,
                decoding_active,
                mixed_prefill_rows: self.mixed_prefill_rows,
                effective_limits: limits,
                decode_coalesce_max_ms: Some(DECODE_COALESCE_WAIT_MS),
                population: Some(population),
                prefill_groups: Some(prefill_groups),
                decode_groups: Some(decode_groups),
                mixed_batch_rows: self.mixed_batch_rows,
            },
        )
    }
}

/// A selection never widens what is configured: each configured member or
/// row limit (zero meaning none) bounds the effective one, every cohort keeps
/// at least one member, generation caps prefill at the mixed quantum, and the
/// groups fit the window.
pub proof fn law_selection_narrows_configuration(
    policy: PipelinePolicy,
    configured: OrdinaryLimits,
    window: usize,
    open: usize,
    population: PipelinePopulation,
    out: PipelineSelection,
)
    requires
        window >= 1,
        policy.mixed_prefill_rows >= 1,
        selection_spec(policy, configured, window, open, population, out),
    ensures
        configured.prefill_members != 0 ==> out.effective_limits.prefill_members
            <= configured.prefill_members,
        configured.decode_members != 0 ==> out.effective_limits.decode_members
            <= configured.decode_members,
        configured.prefill_rows != 0 ==> out.effective_limits.prefill_rows <= configured.prefill_rows,
        out.effective_limits.prefill_members >= 1,
        out.effective_limits.decode_members >= 1,
        out.decoding_active ==> 1 <= out.effective_limits.prefill_rows <= policy.mixed_prefill_rows,
        out.prefill_groups matches Some(g) && g <= window,
        out.decode_groups matches Some(g) && g <= window,
{
}

/// Membership does not depend on transient free slots: two selections from
/// the same population that differ only in how much of the window is open
/// choose the same limits and groups.
pub proof fn law_selection_ignores_open_slots(
    policy: PipelinePolicy,
    configured: OrdinaryLimits,
    window: usize,
    open_a: usize,
    open_b: usize,
    population: PipelinePopulation,
    a: PipelineSelection,
    b: PipelineSelection,
)
    requires
        selection_spec(policy, configured, window, open_a, population, a),
        selection_spec(policy, configured, window, open_b, population, b),
    ensures
        a.effective_limits == b.effective_limits,
        a.prefill_groups == b.prefill_groups,
        a.decode_groups == b.decode_groups,
        a.decoding_active == b.decoding_active,
        b == (PipelineSelection { open: open_b, ..a }),
{
}

/// `m` prompt members per cohort is just wide enough: at least one and no
/// more than the active prompts (or one), and either the cap or enough for
/// `window` cohorts to hold every unfinished prompt, while one member fewer
/// would not be.
pub open spec fn cohort_width(m: int, active: int, unfinished: int, window: int) -> bool {
    let most = if active > 1 {
        active
    } else {
        1
    };
    &&& 1 <= m <= most
    &&& m == most || m * window >= unfinished
    &&& m == 1 || (m - 1) * window < unfinished
}

proof fn lemma_ceil_div(a: int, b: int)
    requires
        a >= 0,
        b >= 1,
    ensures
        ceil_div(a, b) >= 0,
        ceil_div(a, b) * b >= a,
        ceil_div(a, b) == 0 || (ceil_div(a, b) - 1) * b < a,
{
    vstd::arithmetic::div_mod::lemma_fundamental_div_mod(a, b);
    vstd::arithmetic::div_mod::lemma_mod_bound(a, b);
    vstd::arithmetic::div_mod::lemma_div_pos_is_pos(a, b);
    let q = a / b;
    let r = a % b;
    assert(a == b * q + r);
    if r == 0 {
        assert(q * b == a) by (nonlinear_arith)
            requires
                a == b * q + r,
                r == 0,
        ;
        if q > 0 {
            assert((q - 1) * b < a) by (nonlinear_arith)
                requires
                    a == b * q,
                    b >= 1,
        ;
        }
    } else {
        assert((q + 1) * b >= a && q * b < a) by (nonlinear_arith)
            requires
                a == b * q + r,
                0 < r < b,
        ;
    }
}

/// Prompts draining their final chunk keep their cohort width: the prompt
/// cohort is just wide enough for `window` cohorts to hold every unfinished
/// prompt — the active ones and the draining ones alike — never wider than
/// the active prompts, and a configured member limit caps it.
pub proof fn law_draining_prompts_keep_cohort_width(
    policy: PipelinePolicy,
    configured: OrdinaryLimits,
    window: usize,
    open: usize,
    population: PipelinePopulation,
    out: PipelineSelection,
)
    requires
        window >= 1,
        selection_spec(policy, configured, window, open, population, out),
    ensures
        configured.prefill_members == 0 ==> cohort_width(
            out.effective_limits.prefill_members as int,
            active_count(population.prefill),
            active_count(population.prefill) + population.prefill_draining,
            window as int,
        ),
        configured.prefill_members != 0 ==> exists|m: int|
            #[trigger] cohort_width(
                m,
                active_count(population.prefill),
                active_count(population.prefill) + population.prefill_draining,
                window as int,
            ) && out.effective_limits.prefill_members == if m <= configured.prefill_members {
                m
            } else {
                configured.prefill_members as int
            },
{
    let active = active_count(population.prefill);
    let unfinished = active + population.prefill_draining;
    let w = window as int;
    lemma_ceil_div(unfinished, w);
    let c = ceil_div(unfinished, w);
    let most = if active > 1 {
        active
    } else {
        1
    };
    let m = min_of(max_int(c, 1), max_int(active, 1));
    assert(max_int(active, 1) == most);
    if m != most {
        assert(m >= c);
        assert(m * w >= c * w) by (nonlinear_arith)
            requires
                m >= c,
                w >= 1,
        ;
    }
    if m != 1 {
        assert(m <= c && c >= 2);
        assert((m - 1) * w <= (c - 1) * w) by (nonlinear_arith)
            requires
                m <= c,
                w >= 1,
        ;
    }
    assert(cohort_width(m, active, unfinished, w));
}

/// Decodes are spread over as many groups as there are decoding requests,
/// up to the window, and each group is just wide enough: the groups hold
/// every decoding request, while one member fewer per group would not. A
/// configured member limit caps the width.
pub proof fn law_decode_groups_hold_every_decode(
    policy: PipelinePolicy,
    configured: OrdinaryLimits,
    window: usize,
    open: usize,
    population: PipelinePopulation,
    out: PipelineSelection,
)
    requires
        window >= 1,
        selection_spec(policy, configured, window, open, population, out),
    ensures
        out.decode_groups == Some(
            (if active_count(population.decode) < window {
                active_count(population.decode)
            } else {
                window as int
            }) as usize,
        ),
        configured.decode_members == 0 ==> ({
            let m = out.effective_limits.decode_members as int;
            let g = if active_count(population.decode) == 0 {
                1
            } else {
                out.decode_groups->0 as int
            };
            &&& m >= 1
            &&& m * g >= active_count(population.decode)
            &&& m == 1 || (m - 1) * g < active_count(population.decode)
        }),
        configured.decode_members != 0 ==> out.effective_limits.decode_members <= configured.decode_members,
{
    let a = active_count(population.decode);
    let g = max_int(min_of(a, window as int), 1);
    lemma_ceil_div(a, g);
    let c = ceil_div(a, g);
    if configured.decode_members == 0 {
        let m = out.effective_limits.decode_members as int;
        assert(m == max_int(c, 1));
        if a == 0 {
            assert(g == 1);
            assert(c * 1 >= 0);
            assert(m == 1);
        } else {
            assert(out.decode_groups->0 as int == g);
            assert(c >= 1) by (nonlinear_arith)
                requires
                    c * g >= a,
                    a > 0,
                    c >= 0,
            ;
            assert(m == c);
        }
    }
}

} // verus!
