//! llama.cpp-compatible mixed-batch planner: demand model and validation.
//!
//! Attention models fill one logical llama batch up to `llama_n_batch` and
//! allow llama.cpp to split it at `n_ubatch`. Recurrent/hybrid models
//! negotiate equal per-sequence widths, so one call constructs exactly one
//! physical UBATCH instead. Decode consumes one row first; ordinary attention
//! Prefill uses the remaining rows in rotating water-fill order.
use crate::plan_atomic::{
atomic_inputs, mixed_members, plan_atomic, run_members, equal_run, seed,
};
use crate::plan_equal::{allocations_at_width, equal_inputs, equal_plan_with, plan_equal, EqualOutcome};
use crate::plan_ordinary::{ordinary_plan_spec, plan_ordinary};
use std::sync::Arc;
use vstd::prelude::*;

verus! {

#[derive(Clone, Copy, Debug, PartialEq, Eq, Structural)]
pub enum Phase {
    Prefill,
    Decode,
    Verify,
    Replay,
}

#[derive(Clone, Debug, PartialEq, Eq)]
pub struct Demand {
    pub request_id: String,
    pub sequence_id: u32,
    pub compatibility: String,
    pub phase: Phase,
    /// Prefill rows available in sequence order. Decode always contributes one.
    pub available_rows: usize,
    /// Verify and replay rows are one indivisible sequence transaction.
    pub atomic: bool,
}

#[derive(Clone, Debug, PartialEq, Eq)]
pub struct Allocation {
    pub request_id: String,
    pub sequence_id: u32,
    pub phase: Phase,
    pub rows: usize,
}

#[derive(Clone, Copy, Debug, PartialEq, Eq, Structural)]
pub enum SchedulerError {
    ZeroCapacity,
    EmptyIdentity,
    DuplicateSequence(u32),
    MixedCompatibility,
    InvalidDemand,
    AtomicDemandExceedsCapacity,
    /// The plan was prepared against a policy revision that is no longer current.
    StalePlan,
    /// The plan was prepared by a different scheduler.
    ForeignPlan,
    /// Another accepted plan would overflow the policy revision counter.
    PolicyRevisionExhausted,
}

/// Verify and Replay are the atomic (speculative) phases.
pub open spec fn is_atomic_phase(phase: Phase) -> bool {
    phase == Phase::Verify || phase == Phase::Replay
}

/// The row shape a single demand must have, whatever else it carries.
pub open spec fn row_shape_valid(d: Demand) -> bool {
    &&& d.available_rows > 0
    &&& d.phase == Phase::Decode ==> d.available_rows == 1
    &&& d.atomic == is_atomic_phase(d.phase)
}

/// What is wrong with demand `i`, judged against the demands before it.
pub open spec fn demand_fault(ds: Seq<Demand>, i: int) -> Option<SchedulerError> {
    let d = ds[i];
    if d.request_id@.len() == 0 || d.compatibility@.len() == 0 {
        Some(SchedulerError::EmptyIdentity)
    } else if d.compatibility@ != ds[0].compatibility@ {
        Some(SchedulerError::MixedCompatibility)
    } else if exists|j: int| 0 <= j < i && ds[j].sequence_id == d.sequence_id {
        Some(SchedulerError::DuplicateSequence(d.sequence_id))
    } else if !row_shape_valid(d) {
        Some(SchedulerError::InvalidDemand)
    } else {
        None
    }
}

/// The first fault at or after position `i`.
pub open spec fn first_fault_from(ds: Seq<Demand>, i: int) -> Option<SchedulerError>
    decreases ds.len() - i,
{
    if i < 0 || i >= ds.len() {
        None
    } else if demand_fault(ds, i) is Some {
        demand_fault(ds, i)
    } else {
        first_fault_from(ds, i + 1)
    }
}

/// The error validation reports for a non-empty demand list, if any.
pub open spec fn validation_fault(ds: Seq<Demand>) -> Option<SchedulerError> {
    if ds[0].compatibility@.len() == 0 {
        Some(SchedulerError::EmptyIdentity)
    } else {
        first_fault_from(ds, 0)
    }
}

/// A demand list that planning accepts: non-empty identities, one
/// compatibility class, unique sequence ids, and rows that fit each phase.
pub open spec fn demands_valid(ds: Seq<Demand>) -> bool {
    forall|i: int| 0 <= i < ds.len() ==> demand_fault(ds, i) is None
}

proof fn lemma_fault_skip(ds: Seq<Demand>, k: int, i: int)
    requires
        0 <= k <= i,
        forall|j: int| k <= j < i ==> demand_fault(ds, j) is None,
    ensures
        first_fault_from(ds, k) == first_fault_from(ds, i),
    decreases i - k,
{
    if k < i {
        lemma_fault_skip(ds, k + 1, i);
    }
}

/// No fault anywhere means validation accepts, and conversely.
pub proof fn lemma_valid_iff_no_fault(ds: Seq<Demand>)
    requires
        ds.len() > 0,
    ensures
        demands_valid(ds) <==> validation_fault(ds) is None,
{
    if demands_valid(ds) {
        lemma_fault_skip(ds, 0, ds.len() as int);
    } else {
        let i = choose|i: int| 0 <= i < ds.len() && demand_fault(ds, i) is Some;
        lemma_first_fault_exists(ds, 0, i);
    }
}

proof fn lemma_first_fault_exists(ds: Seq<Demand>, k: int, i: int)
    requires
        0 <= k <= i < ds.len(),
        demand_fault(ds, i) is Some,
    ensures
        first_fault_from(ds, k) is Some,
    decreases i - k,
{
    if k < i && demand_fault(ds, k) is None {
        lemma_first_fault_exists(ds, k + 1, i);
    }
}

fn string_is_empty(s: &String) -> (r: bool)
    ensures
        r == (s@.len() == 0),
{
    s.as_str().is_empty()
}

/// Checks the demand list; reports the first fault in list order.
#[verifier::loop_isolation(false)]
pub fn validate_demands(demands: &[Demand]) -> (r: Result<(), SchedulerError>)
    requires
        demands@.len() > 0,
    ensures
        r matches Ok(_) <==> validation_fault(demands@) is None,
        r matches Err(e) ==> validation_fault(demands@) == Some(e),
        r is Ok ==> demands_valid(demands@),
{
    proof {
        lemma_valid_iff_no_fault(demands@);
    }
    let compatibility = &demands[0].compatibility;
    if string_is_empty(compatibility) {
        return Err(SchedulerError::EmptyIdentity);
    }
    let n = demands.len();
    let mut i: usize = 0;
    while i < n
        invariant
            n == demands@.len(),
            i <= n,
            compatibility@ == demands@[0].compatibility@,
            compatibility@.len() > 0,
            forall|j: int| 0 <= j < i ==> demand_fault(demands@, j) is None,
        decreases n - i,
    {
        let demand = &demands[i];
        if string_is_empty(&demand.request_id) || string_is_empty(&demand.compatibility) {
            proof {
                lemma_fault_skip(demands@, 0, i as int);
            }
            return Err(SchedulerError::EmptyIdentity);
        }
        if demand.compatibility != *compatibility {
            proof {
                lemma_fault_skip(demands@, 0, i as int);
            }
            return Err(SchedulerError::MixedCompatibility);
        }
        let mut j: usize = 0;
        while j < i
            invariant
                i < n,
                n == demands@.len(),
                j <= i,
                forall|k: int| 0 <= k < j ==> demands@[k].sequence_id != demands@[i as int].sequence_id,
            decreases i - j,
        {
            if demands[j].sequence_id == demand.sequence_id {
                proof {
                    lemma_fault_skip(demands@, 0, i as int);
                }
                return Err(SchedulerError::DuplicateSequence(demand.sequence_id));
            }
            j += 1;
        }
        let atomic_phase = match demand.phase {
            Phase::Verify | Phase::Replay => true,
            _ => false,
        };
        if demand.available_rows == 0 || (demand.phase == Phase::Decode && demand.available_rows
            != 1) || demand.atomic != atomic_phase {
            proof {
                lemma_fault_skip(demands@, 0, i as int);
            }
            return Err(SchedulerError::InvalidDemand);
        }
        i += 1;
    }
    Ok(())
}

} // verus!

verus! {

/// Bounds the ordinary-attention pipeline policy puts on one batch. Zero
/// means unbounded in every field.
#[derive(Clone, Copy, Debug, Default, PartialEq, Eq, Structural)]
pub struct OrdinaryLimits {
    /// Prefill rows one batch may carry in total.
    pub prefill_rows: usize,
    /// Prompts one batch may carry.
    pub prefill_members: usize,
    /// Decodes one batch may carry.
    pub decode_members: usize,
}

/// A limit where zero means "no limit", applied to `n`.
pub open spec fn cap_of(limit: usize, n: int) -> int {
    if limit == 0 || n <= limit {
        n
    } else {
        limit as int
    }
}

/// Position `k` of the rotation that starts at `s` over `n` demands.
pub open spec fn index_at(s: int, n: int, k: int) -> int {
    if s + k < n {
        s + k
    } else {
        s + k - n
    }
}

/// Where demand `i` stands in the rotation that starts at `s`.
pub open spec fn rank(s: int, n: int, i: int) -> int {
    if i >= s {
        i - s
    } else {
        i + n - s
    }
}

pub proof fn lemma_rotation(s: int, n: int)
    requires
        0 <= s < n,
    ensures
        forall|k: int| 0 <= k < n ==> 0 <= #[trigger] index_at(s, n, k) < n && rank(s, n, index_at(s, n, k)) == k,
        forall|i: int| 0 <= i < n ==> 0 <= #[trigger] rank(s, n, i) < n && index_at(s, n, rank(s, n, i)) == i,
{
}

/// Demands of phase `ph` among the first `k` positions of the rotation.
pub open spec fn count_before(ds: Seq<Demand>, s: int, k: int, ph: Phase) -> int
    decreases k,
{
    if k <= 0 {
        0
    } else {
        count_before(ds, s, k - 1, ph) + if ds[index_at(s, ds.len() as int, k - 1)].phase == ph {
            1int
        } else {
            0int
        }
    }
}

pub proof fn lemma_count_before_monotone(ds: Seq<Demand>, s: int, j: int, k: int, ph: Phase)
    requires
        0 <= j <= k,
    ensures
        0 <= count_before(ds, s, j, ph) <= count_before(ds, s, k, ph) <= count_before(ds, s, j, ph) + (k - j),
    decreases k - j,
{
    if j < k {
        lemma_count_before_monotone(ds, s, j, k - 1, ph);
    } else {
        lemma_count_before_nonneg(ds, s, j, ph);
    }
}

pub proof fn lemma_count_before_nonneg(ds: Seq<Demand>, s: int, k: int, ph: Phase)
    ensures
        0 <= count_before(ds, s, k, ph) <= if k < 0 { 0 } else { k },
    decreases k,
{
    if k > 0 {
        lemma_count_before_nonneg(ds, s, k - 1, ph);
    }
}

/// Positions `p < q` of the same phase have strictly increasing counts.
pub proof fn lemma_count_before_strict(ds: Seq<Demand>, s: int, p: int, q: int, ph: Phase)
    requires
        0 <= p < q <= ds.len(),
        ds[index_at(s, ds.len() as int, p)].phase == ph,
    ensures
        count_before(ds, s, p, ph) < count_before(ds, s, q, ph),
    decreases q - p,
{
    if q > p + 1 {
        lemma_count_before_strict(ds, s, p, q - 1, ph);
        lemma_count_before_monotone(ds, s, q - 1, q, ph);
    }
}

} // verus!

verus! {

/// A valid demand list has distinct sequence ids.
pub proof fn lemma_valid_distinct(ds: Seq<Demand>)
    requires
        demands_valid(ds),
    ensures
        forall|i: int, j: int|
            0 <= i < ds.len() && 0 <= j < ds.len() && i != j ==> ds[i].sequence_id
                != ds[j].sequence_id,
        forall|i: int| 0 <= i < ds.len() ==> row_shape_valid(#[trigger] ds[i]),
{
    assert forall|i: int, j: int|
        0 <= i < ds.len() && 0 <= j < ds.len() && i != j implies ds[i].sequence_id
        != ds[j].sequence_id by {
        if j < i {
            assert(demand_fault(ds, i) is None);
        } else {
            assert(demand_fault(ds, j) is None);
        }
    }
    assert forall|i: int| 0 <= i < ds.len() implies row_shape_valid(#[trigger] ds[i]) by {
        assert(demand_fault(ds, i) is None);
    }
}

} // verus!

verus! {

/// The fairness state a plan reads and an accepted plan advances.
#[derive(Clone, Copy, Debug, PartialEq, Eq, Structural)]
pub struct PolicyState {
    /// The rotation start of the ordinary and atomic planners.
    pub cursor: usize,
    /// Consecutive decode-only equal-width batches issued while a prompt was waiting.
    pub decode_runs: u32,
    /// The sequence id each equal-width cohort resumes from, kept apart from
    /// the cohort decision so a served cohort means a served request.
    pub prefill_resume: u32,
    pub decode_resume: u32,
}

/// The policy state of a fresh scheduler.
pub open spec fn initial_policy() -> PolicyState {
    PolicyState { cursor: 0, decode_runs: 0, prefill_resume: 0, decode_resume: 0 }
}

/// Some demand in the list is atomic.
pub open spec fn has_atomic(ds: Seq<Demand>) -> bool {
    exists|i: int| 0 <= i < ds.len() && ds[i].atomic
}

/// The state after any plan: the rotation moves one step.
pub open spec fn stepped(state: PolicyState, n: int) -> PolicyState {
    PolicyState { cursor: (((state.cursor as int) % n + 1) % n) as usize, ..state }
}

/// The state after an equal-width plan with outcome `o`.
pub open spec fn equal_stepped(state: PolicyState, n: int, o: EqualOutcome) -> PolicyState {
    PolicyState {
        cursor: (((state.cursor as int) % n + 1) % n) as usize,
        decode_runs: o.decode_runs,
        prefill_resume: if o.serve_prefills {
            o.resume
        } else {
            state.prefill_resume
        },
        decode_resume: if o.serve_prefills {
            state.decode_resume
        } else {
            o.resume
        },
    }
}

/// What planning yields from a policy state: the refusal, or the
/// allocations and the state that accepting them leads to.
pub open spec fn plan_outcome(
    state: PolicyState,
    revision: u64,
    ds: Seq<Demand>,
    oc: usize,
    pc: usize,
    equal: bool,
    max_atomic: usize,
    exclusive: bool,
    limits: OrdinaryLimits,
    r: Result<(Seq<Allocation>, PolicyState), SchedulerError>,
) -> bool {
    let n = ds.len() as int;
    if oc == 0 || pc == 0 || max_atomic == 0 {
        r == Err::<(Seq<Allocation>, PolicyState), SchedulerError>(SchedulerError::ZeroCapacity)
    } else if n == 0 {
        r == Ok::<(Seq<Allocation>, PolicyState), SchedulerError>((Seq::empty(), state))
    } else if revision == u64::MAX {
        r == Err::<(Seq<Allocation>, PolicyState), SchedulerError>(
            SchedulerError::PolicyRevisionExhausted,
        )
    } else if validation_fault(ds) is Some {
        r == Err::<(Seq<Allocation>, PolicyState), SchedulerError>(validation_fault(ds)->0)
    } else {
        let s = (state.cursor as int) % n;
        if has_atomic(ds) {
            let w = ds[seed(ds, s)].available_rows as int;
            if w > pc {
                r == Err::<(Seq<Allocation>, PolicyState), SchedulerError>(
                    SchedulerError::AtomicDemandExceedsCapacity,
                )
            } else if equal {
                r == Ok::<(Seq<Allocation>, PolicyState), SchedulerError>(
                    (
                        allocations_at_width(
                            ds,
                            run_members(ds, w, exclusive, equal_run(ds, s, pc as int, max_atomic as int, exclusive)),
                            w,
                        ),
                        stepped(state, n),
                    ),
                )
            } else {
                r == Ok::<(Seq<Allocation>, PolicyState), SchedulerError>(
                    (
                        allocations_at_width(
                            ds,
                            mixed_members(ds, s, pc as int, w, max_atomic as int, exclusive),
                            w,
                        ),
                        stepped(state, n),
                    ),
                )
            }
        } else if equal {
            exists|cs: Seq<usize>, o: EqualOutcome|
                equal_plan_with(
                    ds,
                    state.decode_runs,
                    state.prefill_resume,
                    state.decode_resume,
                    pc,
                    cs,
                    o,
                ) && r == Ok::<(Seq<Allocation>, PolicyState), SchedulerError>(
                    (o.allocations@, equal_stepped(state, n, o)),
                )
        } else {
            r matches Ok((out, next)) && next == stepped(state, n) && ordinary_plan_spec(
                ds,
                s,
                oc,
                limits,
                out,
            )
        }
    }
}

/// A candidate batch. Preparing one changes nothing; only committing it to
/// the scheduler that prepared it, at the revision it was prepared against,
/// advances fairness.
#[derive(Debug)]
pub struct PreparedPlan {
    allocations: Vec<Allocation>,
    next: PolicyState,
    revision: u64,
    advances: bool,
    owner: Arc<()>,
}

impl PreparedPlan {
    #[verifier::type_invariant]
    closed spec fn plan_inv(self) -> bool {
        self.advances ==> self.revision < u64::MAX
    }

    /// The planned allocations.
    pub closed spec fn planned(&self) -> Seq<Allocation> {
        self.allocations@
    }

    /// The policy state committing this plan leads to.
    pub closed spec fn next_state(&self) -> PolicyState {
        self.next
    }

    /// The policy revision the plan was prepared against.
    pub closed spec fn prepared_at(&self) -> u64 {
        self.revision
    }

    /// Whether committing the plan advances the policy at all (an empty
    /// demand list advances nothing).
    pub closed spec fn advances(&self) -> bool {
        self.advances
    }

    pub fn allocations(&self) -> (r: &[Allocation])
        ensures
            r@ == self.planned(),
    {
        self.allocations.as_slice()
    }
}

/// The mixed-batch planner and its fairness state.
pub struct Scheduler {
    pub state: PolicyState,
    /// Counts accepted plans; a plan prepared at another revision is stale.
    pub revision: u64,
    owner: Arc<()>,
}

/// Whether two handles share one allocation (`Arc::ptr_eq`). The answer
/// depends on where the allocator put them, so nothing is stated of it.
#[verifier::external_body]
fn same_allocation(a: &Arc<()>, b: &Arc<()>) -> bool {
    Arc::ptr_eq(a, b)
}

impl Scheduler {
    /// The fairness state.
    pub closed spec fn policy(&self) -> PolicyState {
        self.state
    }

    /// The number of plans accepted so far.
    pub closed spec fn accepted(&self) -> u64 {
        self.revision
    }

    pub fn new() -> (r: Self)
        ensures
            r.policy() == initial_policy(),
            r.accepted() == 0,
    {
        Scheduler { state: PolicyState { cursor: 0, decode_runs: 0, prefill_resume: 0, decode_resume: 0 }, revision: 0, owner: Arc::new(()) }
    }

    pub fn cursor(&self) -> (r: usize)
        ensures
            r == self.policy().cursor,
    {
        self.state.cursor
    }

    /// Prepares a candidate under explicit ordinary-attention limits.
    pub fn prepare_plan_with_limits(
        &self,
        demands: &[Demand],
        ordinary_capacity: usize,
        physical_capacity: usize,
        equal_sequence_ubatch: bool,
        max_atomic_sequences: usize,
        atomic_batch_exclusive: bool,
        limits: OrdinaryLimits,
    ) -> (r: Result<PreparedPlan, SchedulerError>)
        ensures
            plan_outcome(
                self.policy(),
                self.accepted(),
                demands@,
                ordinary_capacity,
                physical_capacity,
                equal_sequence_ubatch,
                max_atomic_sequences,
                atomic_batch_exclusive,
                limits,
                match r {
                    Ok(p) => Ok((p.planned(), p.next_state())),
                    Err(e) => Err(e),
                },
            ),
            r matches Ok(p) ==> p.prepared_at() == self.accepted() && p.advances() == (demands@.len()
                > 0),
    {
        let ghost ds = demands@;
        let state = self.state;
        if ordinary_capacity == 0 || physical_capacity == 0 || max_atomic_sequences == 0 {
            return Err(SchedulerError::ZeroCapacity);
        }
        let n = demands.len();
        if n == 0 {
            return Ok(
                PreparedPlan {
                    allocations: Vec::new(),
                    next: state,
                    revision: self.revision,
                    advances: false,
                    owner: self.owner.clone(),
                },
            );
        }
        if self.revision == u64::MAX {
            return Err(SchedulerError::PolicyRevisionExhausted);
        }
        validate_demands(demands)?;
        proof {
            lemma_valid_distinct(ds);
        }
        let start = state.cursor % n;
        let moved = PolicyState { cursor: (start + 1) % n, ..state };
        let mut atomic = false;
        let mut i: usize = 0;
        while i < n
            invariant
                n == ds.len(),
                ds == demands@,
                i <= n,
                atomic == exists|j: int| 0 <= j < i && ds[j].atomic,
            decreases n - i,
        {
            if demands[i].atomic {
                atomic = true;
            }
            i += 1;
        }
        let allocations;
        let next;
        if atomic {
            assert(atomic_inputs(ds));
            allocations = plan_atomic(
                demands,
                start,
                physical_capacity,
                equal_sequence_ubatch,
                max_atomic_sequences,
                atomic_batch_exclusive,
            )?;
            next = moved;
        } else if equal_sequence_ubatch {
            assert(equal_inputs(ds));
            let o = plan_equal(demands, state.decode_runs, state.prefill_resume, state.decode_resume, physical_capacity);
            next = PolicyState {
                cursor: (start + 1) % n,
                decode_runs: o.decode_runs,
                prefill_resume: if o.serve_prefills {
                    o.resume
                } else {
                    state.prefill_resume
                },
                decode_resume: if o.serve_prefills {
                    state.decode_resume
                } else {
                    o.resume
                },
            };
            allocations = o.allocations;
        } else {
            allocations = plan_ordinary(demands, start, ordinary_capacity, limits);
            next = moved;
        }
        Ok(PreparedPlan { allocations, next, revision: self.revision, advances: true, owner: self.owner.clone() })
    }

    pub fn prepare_plan_with_physical_capacity(
        &self,
        demands: &[Demand],
        ordinary_capacity: usize,
        physical_capacity: usize,
        equal_sequence_ubatch: bool,
        max_atomic_sequences: usize,
        atomic_batch_exclusive: bool,
    ) -> (r: Result<PreparedPlan, SchedulerError>)
        ensures
            plan_outcome(
                self.policy(),
                self.accepted(),
                demands@,
                ordinary_capacity,
                physical_capacity,
                equal_sequence_ubatch,
                max_atomic_sequences,
                atomic_batch_exclusive,
                OrdinaryLimits { prefill_rows: 0, prefill_members: 0, decode_members: 0 },
                match r {
                    Ok(p) => Ok((p.planned(), p.next_state())),
                    Err(e) => Err(e),
                },
            ),
            r matches Ok(p) ==> p.prepared_at() == self.accepted() && p.advances() == (demands@.len()
                > 0),
    {
        self.prepare_plan_with_limits(
            demands,
            ordinary_capacity,
            physical_capacity,
            equal_sequence_ubatch,
            max_atomic_sequences,
            atomic_batch_exclusive,
            OrdinaryLimits { prefill_rows: 0, prefill_members: 0, decode_members: 0 },
        )
    }

    pub fn prepare_plan(&self, demands: &[Demand], capacity: usize) -> (r: Result<
        PreparedPlan,
        SchedulerError,
    >)
        ensures
            plan_outcome(
                self.policy(),
                self.accepted(),
                demands@,
                capacity,
                capacity,
                false,
                usize::MAX,
                false,
                OrdinaryLimits { prefill_rows: 0, prefill_members: 0, decode_members: 0 },
                match r {
                    Ok(p) => Ok((p.planned(), p.next_state())),
                    Err(e) => Err(e),
                },
            ),
            r matches Ok(p) ==> p.prepared_at() == self.accepted() && p.advances() == (demands@.len()
                > 0),
    {
        self.prepare_plan_with_physical_capacity(demands, capacity, capacity, false, usize::MAX, false)
    }
}


impl Scheduler {
    /// Accepts `plan` given whether it was prepared by this scheduler: a
    /// foreign plan, or one prepared at an earlier revision, changes nothing.
    pub fn commit_owned(&mut self, plan: PreparedPlan, owned: bool) -> (r: Result<
        Vec<Allocation>,
        SchedulerError,
    >)
        ensures
            !owned ==> r == Err::<Vec<Allocation>, SchedulerError>(SchedulerError::ForeignPlan)
                && final(self).policy() == old(self).policy() && final(self).accepted() == old(self).accepted(),
            owned && plan.prepared_at() != old(self).accepted() ==> r == Err::<
                Vec<Allocation>,
                SchedulerError,
            >(SchedulerError::StalePlan) && final(self).policy() == old(self).policy()
                && final(self).accepted() == old(self).accepted(),
            owned && plan.prepared_at() == old(self).accepted() ==> (r matches Ok(out) && out@
                == plan.planned() && if plan.advances() {
                final(self).policy() == plan.next_state() && final(self).accepted() == old(self).accepted()
                    + 1
            } else {
                final(self).policy() == old(self).policy() && final(self).accepted() == old(self).accepted()
            }),
    {
        proof {
            use_type_invariant(&plan);
        }
        if !owned {
            return Err(SchedulerError::ForeignPlan);
        }
        if plan.revision != self.revision {
            return Err(SchedulerError::StalePlan);
        }
        if plan.advances {
            self.state = plan.next;
            self.revision = self.revision + 1;
        }
        Ok(plan.allocations)
    }

    /// Accepts a plan this scheduler prepared at its current revision; this
    /// is the only way planning advances fairness. Whether the plan is this
    /// scheduler's own is asked of its handle; what follows is whatever
    /// `commit_owned` does with the answer: a foreign plan changes nothing,
    /// and an own plan is refused as stale or accepted exactly.
    pub fn commit_plan(&mut self, plan: PreparedPlan) -> (r: Result<Vec<Allocation>, SchedulerError>)
        ensures
            r is Err ==> final(self).policy() == old(self).policy() && final(self).accepted() == old(
                self,
            ).accepted(),
            r matches Err(e) ==> e == SchedulerError::ForeignPlan || (e == SchedulerError::StalePlan
                && plan.prepared_at() != old(self).accepted()),
            r matches Ok(out) ==> out@ == plan.planned() && plan.prepared_at() == old(self).accepted()
                && if plan.advances() {
                final(self).policy() == plan.next_state() && final(self).accepted() == old(self).accepted()
                    + 1
            } else {
                final(self).policy() == old(self).policy() && final(self).accepted() == old(self).accepted()
            },
    {
        let owned = same_allocation(&self.owner, &plan.owner);
        self.commit_owned(plan, owned)
    }

    /// Whether committing `plan` now would be accepted, given whether it was
    /// prepared by this scheduler: a foreign plan is refused first, then one
    /// prepared at another revision.
    pub fn validate_owned(&self, plan: &PreparedPlan, owned: bool) -> (r: Result<(), SchedulerError>)
        ensures
            r == if !owned {
                Err::<(), SchedulerError>(SchedulerError::ForeignPlan)
            } else if plan.prepared_at() != self.accepted() {
                Err::<(), SchedulerError>(SchedulerError::StalePlan)
            } else {
                Ok::<(), SchedulerError>(())
            },
    {
        if !owned {
            return Err(SchedulerError::ForeignPlan);
        }
        if plan.revision != self.revision {
            return Err(SchedulerError::StalePlan);
        }
        Ok(())
    }

    /// Whether committing `plan` now would be accepted (without committing
    /// it). Whether the plan is this scheduler's own is asked of its handle;
    /// the answer is whatever `validate_owned` gives for it.
    pub fn validate_prepared(&self, plan: &PreparedPlan) -> (r: Result<(), SchedulerError>)
        ensures
            r == Err::<(), SchedulerError>(SchedulerError::ForeignPlan) || r == (if plan.prepared_at()
                != self.accepted() {
                Err::<(), SchedulerError>(SchedulerError::StalePlan)
            } else {
                Ok::<(), SchedulerError>(())
            }),
    {
        let owned = same_allocation(&self.owner, &plan.owner);
        self.validate_owned(plan, owned)
    }

    /// Plans and accepts at once.
    pub fn plan_with_physical_capacity(
        &mut self,
        demands: &[Demand],
        ordinary_capacity: usize,
        physical_capacity: usize,
        equal_sequence_ubatch: bool,
        max_atomic_sequences: usize,
        atomic_batch_exclusive: bool,
    ) -> (r: Result<Vec<Allocation>, SchedulerError>)
        ensures
            plan_outcome(
                old(self).policy(),
                old(self).accepted(),
                demands@,
                ordinary_capacity,
                physical_capacity,
                equal_sequence_ubatch,
                max_atomic_sequences,
                atomic_batch_exclusive,
                OrdinaryLimits { prefill_rows: 0, prefill_members: 0, decode_members: 0 },
                match r {
                    Ok(out) => Ok((out@, final(self).policy())),
                    Err(e) => Err(e),
                },
            ),
            r is Err ==> final(self).policy() == old(self).policy(),
            final(self).accepted() == if r is Ok && demands@.len() > 0 {
                old(self).accepted() + 1
            } else {
                old(self).accepted() as int
            },
    {
        let plan = self.prepare_plan_with_physical_capacity(
            demands,
            ordinary_capacity,
            physical_capacity,
            equal_sequence_ubatch,
            max_atomic_sequences,
            atomic_batch_exclusive,
        )?;
        self.commit_owned(plan, true)
    }

    /// Plans and accepts one ordinary batch of `capacity` rows.
    pub fn plan(&mut self, demands: &[Demand], capacity: usize) -> (r: Result<
        Vec<Allocation>,
        SchedulerError,
    >)
        ensures
            plan_outcome(
                old(self).policy(),
                old(self).accepted(),
                demands@,
                capacity,
                capacity,
                false,
                usize::MAX,
                false,
                OrdinaryLimits { prefill_rows: 0, prefill_members: 0, decode_members: 0 },
                match r {
                    Ok(out) => Ok((out@, final(self).policy())),
                    Err(e) => Err(e),
                },
            ),
            r is Err ==> final(self).policy() == old(self).policy(),
            final(self).accepted() == if r is Ok && demands@.len() > 0 {
                old(self).accepted() + 1
            } else {
                old(self).accepted() as int
            },
    {
        self.plan_with_physical_capacity(demands, capacity, capacity, false, usize::MAX, false)
    }
}

impl Default for Scheduler {
    fn default() -> (r: Self)
        ensures
            r.policy() == initial_policy(),
            r.accepted() == 0,
    {
        Self::new()
    }
}

} // verus!
