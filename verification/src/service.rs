//! Measured pipeline RPC service admission. This is a prediction policy, not
//! execution, KV, transport credit or a hard response-time guarantee.
//!
//! The head registers each issued batch; downstream stages report how long
//! their RPC took. From those samples the policy predicts what a candidate
//! prefill would cost along the serial stage path and decides whether to
//! admit it beside generation that is already decoding.
use vstd::prelude::*;
use vstd::std_specs::iter::IteratorSpec;

verus! {

pub const HISTORY: usize = 128;

pub const PROFILE: usize = 256;

pub const MAX_STAGES: usize = 64;

pub const MAX_EXECUTIONS: usize = 1024;

/// Recent samples a profile keeps.
pub const RECENT: usize = 8;

#[derive(Clone, Copy, Debug, PartialEq, Eq, Structural)]
pub struct ServiceShape {
    pub prefill_rows: usize,
    pub decode_rows: usize,
    pub members: usize,
    /// Last input position in this call, not the backend's actual n_kv view.
    pub last_position: u32,
}

#[derive(Clone, Debug, PartialEq, Eq)]
pub struct ServiceSample {
    pub load_generation: u64,
    pub session_id: String,
    pub execution_ids: Vec<u64>,
    pub stage_index: usize,
    pub shape: ServiceShape,
    /// Local monotonic Frame request duration; not GPU kernel time.
    pub rpc_us: u64,
}

#[derive(Clone, Copy, Debug, PartialEq, Eq, Structural)]
pub enum ServiceVerdict {
    PurePrefill,
    DecodeOnly,
    Cold,
    CalibrationWait,
    Admit,
    DeferPrefill,
    ProgressProbe,
}

#[derive(Clone, Debug, PartialEq, Eq)]
pub struct ServiceDecision {
    pub verdict: ServiceVerdict,
    pub budget_us: u64,
    pub max_pending_us: u64,
    pub max_with_candidate_us: u64,
    pub known_stages: usize,
    pub stages: usize,
    /// FIFO projection through every stage, including unconfirmed open work.
    /// Excludes unmeasured transfer/return delay; never a client ITL guarantee.
    pub predicted_tail_rpc_us: Option<u64>,
    pub examined_prefill_rows: Vec<usize>,
    pub selected_prefill_rows: Option<usize>,
}

/// One registered batch and the stage samples received for it so far.
#[derive(Clone, Debug, PartialEq, Eq)]
pub struct Issued {
    pub load: u64,
    pub session: String,
    pub ordinal: u64,
    pub executions: Vec<u64>,
    pub shape: ServiceShape,
    pub samples: Vec<Option<u64>>,
}

/// Recent measurements of one stage for one comparable shape.
#[derive(Clone, Debug, PartialEq, Eq)]
pub struct Profile {
    pub load: u64,
    pub session: String,
    pub stage: usize,
    pub shape: ServiceShape,
    pub recent_us: Vec<u64>,
}

pub struct IssuedView {
    pub load: u64,
    pub session: Seq<char>,
    pub ordinal: u64,
    pub executions: Seq<u64>,
    pub shape: ServiceShape,
    pub samples: Seq<Option<u64>>,
}

pub struct ProfileView {
    pub load: u64,
    pub session: Seq<char>,
    pub stage: usize,
    pub shape: ServiceShape,
    pub recent: Seq<u64>,
}

impl View for Issued {
    type V = IssuedView;

    open spec fn view(&self) -> IssuedView {
        IssuedView {
            load: self.load,
            session: self.session@,
            ordinal: self.ordinal,
            executions: self.executions@,
            shape: self.shape,
            samples: self.samples@,
        }
    }
}

impl View for Profile {
    type V = ProfileView;

    open spec fn view(&self) -> ProfileView {
        ProfileView {
            load: self.load,
            session: self.session@,
            stage: self.stage,
            shape: self.shape,
            recent: self.recent_us@,
        }
    }
}

/// Same prefill, decode and member counts, and the same context bucket.
pub open spec fn comparable(a: ServiceShape, b: ServiceShape) -> bool {
    &&& a.prefill_rows == b.prefill_rows
    &&& a.decode_rows == b.decode_rows
    &&& a.members == b.members
    &&& a.last_position.leading_zeros() == b.last_position.leading_zeros()
}

fn comparable_exec(a: &ServiceShape, b: &ServiceShape) -> (r: bool)
    ensures
        r == comparable(*a, *b),
{
    a.prefill_rows == b.prefill_rows && a.decode_rows == b.decode_rows && a.members == b.members
        && a.last_position.leading_zeros() == b.last_position.leading_zeros()
}

#[derive(Clone, Debug, PartialEq, Eq)]
pub struct ServiceBudget {
    pub budget_us: Option<u64>,
    pub issued: Vec<Issued>,
    pub profiles: Vec<Profile>,
}

pub struct BudgetView {
    pub budget_us: Option<u64>,
    pub issued: Seq<IssuedView>,
    pub profiles: Seq<ProfileView>,
}

impl View for ServiceBudget {
    type V = BudgetView;

    open spec fn view(&self) -> BudgetView {
        BudgetView {
            budget_us: self.budget_us,
            issued: self.issued@.map_values(|r: Issued| r@),
            profiles: self.profiles@.map_values(|p: Profile| p@),
        }
    }
}

} // verus!

verus! {

/// `ks` lists the keys of `m` in ascending order.
pub open spec fn key_order<V>(m: Map<u64, V>, ks: Seq<u64>) -> bool {
    &&& ks.to_set() == m.dom()
    &&& forall|i: int, j: int| 0 <= i < j < ks.len() ==> ks[i] < ks[j]
}

/// The open batch ordinals, in the order the map yields them.
fn open_keys(open: &std::collections::BTreeMap<u64, std::collections::BTreeSet<u64>>) -> (ks: Vec<u64>)
    ensures
        ks@.to_set() == open@.dom(),
{
    broadcast use vstd::std_specs::btree::group_btree_axioms;

    let mut ks: Vec<u64> = Vec::new();
    let ghost all = vstd::std_specs::btree::spec_keys_iter(open).remaining();
    for k in it: open.keys()
        invariant
            ks@ == it.seq().take(it.index() as int).map_values(|r: &u64| *r),
    {
        ks.push(*k);
    }
    proof {
        assert(ks@ == all.unref());
    }
    ks
}

/// The open batch ordinals, ascending.
fn open_ordinals(open: &std::collections::BTreeMap<u64, std::collections::BTreeSet<u64>>) -> (ks: Vec<u64>)
    ensures
        key_order(open@, ks@),
{
    let unsorted = open_keys(open);
    let mut ks: Vec<u64> = Vec::new();
    let mut bound: Option<u64> = None;
    loop
        invariant
            unsorted@.to_set() == open@.dom(),
            forall|i: int, j: int| 0 <= i < j < ks@.len() ==> ks@[i] < ks@[j],
            bound is None <==> ks@.len() == 0,
            bound matches Some(b) ==> ks@.last() == b,
            forall|x: u64| open@.dom().contains(x) ==> ((bound matches Some(b) && x <= b) == ks@.contains(x)),
            forall|x: u64| ks@.contains(x) ==> open@.dom().contains(x),
        ensures
            key_order(open@, ks@),
        decreases open@.dom().len() - ks@.len(),
    {
        let mut best: Option<u64> = None;
        let mut j: usize = 0;
        while j < unsorted.len()
            invariant
                j <= unsorted@.len(),
                unsorted@.to_set() == open@.dom(),
                best matches Some(b) ==> open@.dom().contains(b) && (bound matches Some(lo) ==> b > lo),
                forall|i: int|
                    0 <= i < j && (bound matches Some(lo) ==> #[trigger] unsorted@[i] > lo) ==> (best matches Some(b) && b <= unsorted@[i]),
            decreases unsorted@.len() - j,
        {
            let x = unsorted[j];
            assert(unsorted@.to_set().contains(x));
            let above = match bound {
                None => true,
                Some(lo) => x > lo,
            };
            if above {
                match best {
                    None => {
                        best = Some(x);
                    },
                    Some(b) => {
                        if x < b {
                            best = Some(x);
                        }
                    },
                }
            }
            j += 1;
        }
        match best {
            None => {
                proof {
                    assert forall|x: u64| open@.dom().contains(x) implies ks@.contains(x) by {
                        assert(unsorted@.to_set().contains(x));
                        let i = choose|i: int| 0 <= i < unsorted@.len() && unsorted@[i] == x;
                        if bound is None {
                            assert(false);
                        }
                    }
                    assert(ks@.to_set() =~= open@.dom());
                }
                break ;
            },
            Some(b) => {
                let ghost old_ks = ks@;
                let ghost old_bound = bound;
                assert(forall|x: u64| open@.dom().contains(x) ==> ((old_bound matches Some(lo) && x <= lo) == old_ks.contains(x)));
                proof {
                    if old_ks.contains(b) {
                        let p = choose|p: int| 0 <= p < old_ks.len() && old_ks[p] == b;
                        if p < old_ks.len() - 1 {
                            assert(old_ks[p] < old_ks.last());
                        }
                    }
                    // ks grows by a fresh key, so the set it enumerates grows too.
                    assert(old_ks.to_set().subset_of(open@.dom()));
                    vstd::set_lib::lemma_len_subset(old_ks.to_set(), open@.dom());
                    assert(!old_ks.to_set().contains(b));
                    assert(old_ks.to_set().insert(b).subset_of(open@.dom()));
                    vstd::set_lib::lemma_len_subset(old_ks.to_set().insert(b), open@.dom());
                    lemma_sorted_no_dup(old_ks);
                    old_ks.unique_seq_to_set();
                }
                ks.push(b);
                bound = Some(b);
                proof {
                    assert forall|x: u64| open@.dom().contains(x) implies ((bound matches Some(lo) && x <= lo) == ks@.contains(x)) by {
                        if x == b {
                            assert(ks@.last() == b);
                        } else if ks@.contains(x) {
                            let p = choose|p: int| 0 <= p < ks@.len() && ks@[p] == x;
                            assert(p < old_ks.len());
                            assert(old_ks.contains(x));
                        } else {
                            if old_ks.contains(x) {
                                let p = choose|p: int| 0 <= p < old_ks.len() && old_ks[p] == x;
                                assert(ks@[p] == x);
                            }
                            assert(unsorted@.to_set().contains(x));
                        }
                    }
                    assert forall|x: u64| ks@.contains(x) implies open@.dom().contains(x) by {
                        let p = choose|p: int| 0 <= p < ks@.len() && ks@[p] == x;
                        if p < old_ks.len() {
                            assert(old_ks.contains(x));
                        }
                    }
                }
            },
        }
    }
    ks
}

proof fn lemma_sorted_no_dup(ks: Seq<u64>)
    requires
        forall|i: int, j: int| 0 <= i < j < ks.len() ==> ks[i] < ks[j],
    ensures
        ks.no_duplicates(),
{
    assert forall|i: int, j: int| 0 <= i < ks.len() && 0 <= j < ks.len() && i != j implies ks[i]
        != ks[j] by {
        if i < j {
            assert(ks[i] < ks[j]);
        } else {
            assert(ks[j] < ks[i]);
        }
    }
}

/// Two ascending key lists of one set are the same list.
pub proof fn lemma_key_order_unique<V>(m: Map<u64, V>, a: Seq<u64>, b: Seq<u64>)
    requires
        key_order(m, a),
        key_order(m, b),
    ensures
        a == b,
    decreases a.len(),
{
    lemma_sorted_no_dup(a);
    lemma_sorted_no_dup(b);
    a.unique_seq_to_set();
    b.unique_seq_to_set();
    if a.len() > 0 {
        // Both heads are the least key.
        assert(b.to_set().contains(a[0]));
        assert(a.to_set().contains(b[0]));
        let i = choose|i: int| 0 <= i < b.len() && b[i] == a[0];
        let j = choose|j: int| 0 <= j < a.len() && a[j] == b[0];
        if i > 0 {
            assert(b[0] < b[i]);
            if j > 0 {
                assert(a[0] < a[j]);
            }
        }
        assert(a[0] == b[0]);
        let m2 = m.remove(a[0]);
        assert(a.drop_first().to_set() =~= m2.dom()) by {
            assert forall|x: u64| a.drop_first().to_set().contains(x) <==> m2.dom().contains(x) by {
                if a.drop_first().to_set().contains(x) {
                    let k = choose|k: int| 0 <= k < a.drop_first().len() && a.drop_first()[k] == x;
                    assert(a[k + 1] == x);
                    assert(a[0] < a[k + 1]);
                    assert(a.to_set().contains(x));
                }
                if m2.dom().contains(x) {
                    assert(a.to_set().contains(x));
                    let k = choose|k: int| 0 <= k < a.len() && a[k] == x;
                    assert(k != 0);
                    assert(a.drop_first()[k - 1] == x);
                }
            }
        }
        assert(b.drop_first().to_set() =~= m2.dom()) by {
            assert forall|x: u64| b.drop_first().to_set().contains(x) <==> m2.dom().contains(x) by {
                if b.drop_first().to_set().contains(x) {
                    let k = choose|k: int| 0 <= k < b.drop_first().len() && b.drop_first()[k] == x;
                    assert(b[k + 1] == x);
                    assert(b[0] < b[k + 1]);
                    assert(b.to_set().contains(x));
                }
                if m2.dom().contains(x) {
                    assert(b.to_set().contains(x));
                    let k = choose|k: int| 0 <= k < b.len() && b[k] == x;
                    assert(k != 0);
                    assert(b.drop_first()[k - 1] == x);
                }
            }
        }
        lemma_key_order_unique(m2, a.drop_first(), b.drop_first());
        assert(a =~= seq![a[0]] + a.drop_first());
        assert(b =~= seq![b[0]] + b.drop_first());
    } else {
        if b.len() > 0 {
            assert(b.to_set().contains(b[0]));
        }
    }
}

/// The keys of an open-batch map, ascending.
pub open spec fn ordinals<V>(m: Map<u64, V>) -> Seq<u64> {
    choose|ks: Seq<u64>| key_order(m, ks)
}

fn open_ordinals_exact(open: &std::collections::BTreeMap<u64, std::collections::BTreeSet<u64>>) -> (ks: Vec<u64>)
    ensures
        ks@ == ordinals(open@),
{
    let ks = open_ordinals(open);
    proof {
        lemma_key_order_unique(open@, ks@, ordinals(open@));
    }
    ks
}

/// The first record at or after `k` with this ordinal.
pub open spec fn first_ordinal_from(issued: Seq<IssuedView>, ordinal: u64, k: int) -> Option<int>
    decreases issued.len() - k,
{
    if k < 0 || k >= issued.len() {
        None
    } else if issued[k].ordinal == ordinal {
        Some(k)
    } else {
        first_ordinal_from(issued, ordinal, k + 1)
    }
}

pub open spec fn first_ordinal(issued: Seq<IssuedView>, ordinal: u64) -> Option<int> {
    first_ordinal_from(issued, ordinal, 0)
}

/// Some open batch is unknown, or its record has at least `min_rows`
/// prefill rows (`exact`: exactly that many).
pub open spec fn open_prefill_like<V>(
    issued: Seq<IssuedView>,
    open: Map<u64, V>,
    rows: usize,
    exact: bool,
) -> bool {
    exists|k: u64|
        #![trigger open.dom().contains(k)]
        open.dom().contains(k) && match first_ordinal(issued, k) {
            None => true,
            Some(i) => if exact {
                issued[i].shape.prefill_rows == rows
            } else {
                issued[i].shape.prefill_rows >= rows
            },
        }
}

fn find_ordinal(issued: &Vec<Issued>, ordinal: u64) -> (r: Option<usize>)
    ensures
        r matches Some(i) ==> i < issued@.len() && first_ordinal(
            issued@.map_values(|r: Issued| r@),
            ordinal,
        ) == Some(i as int),
        r is None ==> first_ordinal(issued@.map_values(|r: Issued| r@), ordinal) is None,
{
    let ghost v = issued@.map_values(|r: Issued| r@);
    let mut i: usize = 0;
    while i < issued.len()
        invariant
            i <= issued@.len(),
            v == issued@.map_values(|r: Issued| r@),
            first_ordinal(v, ordinal) == first_ordinal_from(v, ordinal, i as int),
        decreases issued@.len() - i,
    {
        if issued[i].ordinal == ordinal {
            return Some(i);
        }
        i += 1;
    }
    None
}

fn open_prefill_like_exec(
    issued: &Vec<Issued>,
    open: &std::collections::BTreeMap<u64, std::collections::BTreeSet<u64>>,
    rows: usize,
    exact: bool,
) -> (r: bool)
    ensures
        r == open_prefill_like(issued@.map_values(|r: Issued| r@), open@, rows, exact),
{
    let ghost v = issued@.map_values(|r: Issued| r@);
    let keys = open_keys(open);
    let mut j: usize = 0;
    while j < keys.len()
        invariant
            j <= keys@.len(),
            keys@.to_set() == open@.dom(),
            v == issued@.map_values(|r: Issued| r@),
            forall|q: int|
                0 <= q < j ==> !(match first_ordinal(v, #[trigger] keys@[q]) {
                    None => true,
                    Some(i) => if exact {
                        v[i].shape.prefill_rows == rows
                    } else {
                        v[i].shape.prefill_rows >= rows
                    },
                }),
        decreases keys@.len() - j,
    {
        let hit = match find_ordinal(issued, keys[j]) {
            None => true,
            Some(i) => if exact {
                issued[i].shape.prefill_rows == rows
            } else {
                issued[i].shape.prefill_rows >= rows
            },
        };
        if hit {
            proof {
                assert(keys@.to_set().contains(keys@[j as int]));
            }
            return true;
        }
        j += 1;
    }
    proof {
        assert forall|k: u64| open@.dom().contains(k) implies !(match first_ordinal(v, k) {
            None => true,
            Some(i) => if exact {
                v[i].shape.prefill_rows == rows
            } else {
                v[i].shape.prefill_rows >= rows
            },
        }) by {
            assert(keys@.to_set().contains(k));
            let q = choose|q: int| 0 <= q < keys@.len() && keys@[q] == k;
        }
    }
    false
}

impl Default for ServiceBudget {
    /// The disabled policy: no budget and no history, so it admits every
    /// shape unmeasured and records nothing.
    fn default() -> (r: Self)
        ensures
            r@.budget_us is None,
            r@.issued.len() == 0,
            r@.profiles.len() == 0,
    {
        ServiceBudget { budget_us: None, issued: Vec::new(), profiles: Vec::new() }
    }
}

impl ServiceBudget {
    /// A policy with a validated positive budget and no history.
    pub fn new(budget_us: u64) -> (r: Self)
        requires
            budget_us > 0,
        ensures
            r@.budget_us == Some(budget_us),
            r@.issued.len() == 0,
            r@.profiles.len() == 0,
    {
        ServiceBudget { budget_us: Some(budget_us), issued: Vec::new(), profiles: Vec::new() }
    }

    pub fn enabled(&self) -> (r: bool)
        ensures
            r == (self.budget_us is Some),
    {
        self.budget_us.is_some()
    }

    pub fn validate_session(&self, session: &str) -> (r: Result<(), String>)
        ensures
            r is Err <==> (self.budget_us is Some && session.len() > 4096),
            r matches Err(e) ==> e@ == "service policy session identity exceeds 4096 bytes"@,
    {
        if self.enabled() && session.len() > 4096 {
            return Err("service policy session identity exceeds 4096 bytes".to_owned());
        }
        Ok(())
    }

    pub fn validate(&self, stages: usize, window: usize, ordinary: bool) -> (r: Result<(), String>)
        ensures
            r is Err <==> (self.budget_us is Some && (!(2 <= stages <= MAX_STAGES) || window == 0
                || window > HISTORY || !ordinary)),
            r matches Err(e) ==> e@ == "service policy requires ordinary attention, fragment one, pipeline policy and an open window 1..128, stages 2..64"@,
    {
        if self.enabled() && (!(2 <= stages && stages <= MAX_STAGES) || window == 0 || window > HISTORY
            || !ordinary) {
            return Err(
                "service policy requires ordinary attention, fragment one, pipeline policy and an open window 1..128, stages 2..64".to_owned(),
            );
        }
        Ok(())
    }

    /// Forgets all issued records and profiles; the budget stays.
    pub fn clear(&mut self)
        ensures
            final(self)@.budget_us == old(self)@.budget_us,
            final(self)@.issued.len() == 0,
            final(self)@.profiles.len() == 0,
    {
        self.issued.clear();
        self.profiles.clear();
    }

    /// Some open batch is unknown to the policy or carries prefill rows.
    pub fn has_open_prefill(&self, open: &std::collections::BTreeMap<u64, std::collections::BTreeSet<u64>>) -> (r: bool)
        ensures
            r == open_prefill_like(self@.issued, open@, 1, false),
    {
        open_prefill_like_exec(&self.issued, open, 1, false)
    }

    /// Some open batch is unknown to the policy or is a one-row prefill probe.
    pub fn has_open_calibration_probe(
        &self,
        open: &std::collections::BTreeMap<u64, std::collections::BTreeSet<u64>>,
    ) -> (r: bool)
        ensures
            r == open_prefill_like(self@.issued, open@, 1, true),
    {
        open_prefill_like_exec(&self.issued, open, 1, true)
    }
}

/// The record a sample reports on: same load, session and executions.
pub open spec fn record_matches(r: IssuedView, s: ServiceSample) -> bool {
    &&& r.load == s.load_generation
    &&& r.session == s.session_id@
    &&& r.executions == s.execution_ids@
}

pub open spec fn first_record_from(issued: Seq<IssuedView>, s: ServiceSample, k: int) -> Option<int>
    decreases issued.len() - k,
{
    if k < 0 || k >= issued.len() {
        None
    } else if record_matches(issued[k], s) {
        Some(k)
    } else {
        first_record_from(issued, s, k + 1)
    }
}

/// A sample names between one and `MAX_EXECUTIONS` executions.
pub open spec fn extent_ok(s: ServiceSample) -> bool {
    0 < s.execution_ids@.len() <= MAX_EXECUTIONS
}

/// The profile a sample refines: same load, session and stage, comparable shape.
pub open spec fn profile_for(p: ProfileView, s: ServiceSample) -> bool {
    &&& p.load == s.load_generation
    &&& p.session == s.session_id@
    &&& p.stage == s.stage_index
    &&& comparable(p.shape, s.shape)
}

pub open spec fn first_profile_from(ps: Seq<ProfileView>, s: ServiceSample, k: int) -> Option<int>
    decreases ps.len() - k,
{
    if k < 0 || k >= ps.len() {
        None
    } else if profile_for(ps[k], s) {
        Some(k)
    } else {
        first_profile_from(ps, s, k + 1)
    }
}

/// The profiles after a new sample: its profile moves to the back with the
/// sample appended (keeping the last `RECENT`), and the oldest profile is
/// dropped when the table is full.
pub open spec fn profiles_after(ps: Seq<ProfileView>, s: ServiceSample) -> Seq<ProfileView> {
    let found = first_profile_from(ps, s, 0);
    let rest = match found {
        Some(i) => ps.remove(i),
        None => ps,
    };
    let base = match found {
        Some(i) => ps[i],
        None => ProfileView {
            load: s.load_generation,
            session: s.session_id@,
            stage: s.stage_index,
            shape: s.shape,
            recent: Seq::empty(),
        },
    };
    let recent = if base.recent.len() == RECENT {
        base.recent.drop_first()
    } else {
        base.recent
    };
    let kept = if rest.len() == PROFILE {
        rest.drop_first()
    } else {
        rest
    };
    kept.push(ProfileView { recent: recent.push(s.rpc_us), ..base })
}

pub open spec fn extent_message() -> Seq<char> {
    "invalid service sample extent or duration"@
}

pub open spec fn membership_message() -> Seq<char> {
    "service sample differs from accepted issue membership"@
}

pub open spec fn conflict_message() -> Seq<char> {
    "conflicting service sample"@
}

/// What observing a sample returns and leaves behind.
pub open spec fn observe_spec(bv: BudgetView, s: ServiceSample) -> (Result<bool, Seq<char>>, BudgetView) {
    if !extent_ok(s) {
        (Err(extent_message()), bv)
    } else {
        match first_record_from(bv.issued, s, 0) {
            None => (Ok(false), bv),
            Some(i) => {
                let r = bv.issued[i];
                if r.shape != s.shape || s.stage_index >= r.samples.len() {
                    (Err(membership_message()), bv)
                } else {
                    match r.samples[s.stage_index as int] {
                        Some(old) => if old == s.rpc_us {
                            (Ok(false), bv)
                        } else {
                            (Err(conflict_message()), bv)
                        },
                        None => (
                            Ok(true),
                            BudgetView {
                                issued: bv.issued.update(
                                    i,
                                    IssuedView {
                                        samples: r.samples.update(s.stage_index as int, Some(s.rpc_us)),
                                        ..r
                                    },
                                ),
                                profiles: profiles_after(bv.profiles, s),
                                ..bv
                            },
                        ),
                    }
                }
            },
        }
    }
}

fn same_ids(a: &Vec<u64>, b: &Vec<u64>) -> (r: bool)
    ensures
        r == (a@ == b@),
{
    if a.len() != b.len() {
        return false;
    }
    let mut i: usize = 0;
    while i < a.len()
        invariant
            a@.len() == b@.len(),
            i <= a@.len(),
            forall|k: int| 0 <= k < i ==> a@[k] == b@[k],
        decreases a@.len() - i,
    {
        if a[i] != b[i] {
            return false;
        }
        i += 1;
    }
    assert(a@ =~= b@);
    true
}

fn copy_ids(a: &Vec<u64>) -> (r: Vec<u64>)
    ensures
        r@ == a@,
{
    let mut r: Vec<u64> = Vec::new();
    let mut i: usize = 0;
    while i < a.len()
        invariant
            i <= a@.len(),
            r@ == a@.subrange(0, i as int),
        decreases a@.len() - i,
    {
        r.push(a[i]);
        i += 1;
    }
    assert(a@.subrange(0, a@.len() as int) =~= a@);
    r
}

fn find_record(issued: &Vec<Issued>, s: &ServiceSample) -> (r: Option<usize>)
    ensures
        r matches Some(i) ==> i < issued@.len(),
        r matches Some(i) ==> first_record_from(issued@.map_values(|r: Issued| r@), *s, 0) == Some(
            i as int,
        ),
        r is None ==> first_record_from(issued@.map_values(|r: Issued| r@), *s, 0) is None,
{
    let ghost v = issued@.map_values(|r: Issued| r@);
    let mut i: usize = 0;
    while i < issued.len()
        invariant
            i <= issued@.len(),
            v == issued@.map_values(|r: Issued| r@),
            first_record_from(v, *s, 0) == first_record_from(v, *s, i as int),
        decreases issued@.len() - i,
    {
        let r = &issued[i];
        if r.load == s.load_generation && r.session == s.session_id && same_ids(&r.executions, &s.execution_ids) {
            return Some(i);
        }
        i += 1;
    }
    None
}

fn find_profile(ps: &Vec<Profile>, s: &ServiceSample) -> (r: Option<usize>)
    ensures
        r matches Some(i) ==> i < ps@.len(),
        r matches Some(i) ==> first_profile_from(ps@.map_values(|p: Profile| p@), *s, 0) == Some(
            i as int,
        ),
        r is None ==> first_profile_from(ps@.map_values(|p: Profile| p@), *s, 0) is None,
{
    let ghost v = ps@.map_values(|p: Profile| p@);
    let mut i: usize = 0;
    while i < ps.len()
        invariant
            i <= ps@.len(),
            v == ps@.map_values(|p: Profile| p@),
            first_profile_from(v, *s, 0) == first_profile_from(v, *s, i as int),
        decreases ps@.len() - i,
    {
        let p = &ps[i];
        if p.load == s.load_generation && p.session == s.session_id && p.stage == s.stage_index
            && comparable_exec(&p.shape, &s.shape) {
            return Some(i);
        }
        i += 1;
    }
    None
}

impl ServiceBudget {
    /// Records one stage's sample for a registered batch. The caller
    /// validates the declared sender first. Samples never retire flight, KV
    /// or edge authority, nor publish model output.
    pub fn observe(&mut self, sample: &ServiceSample) -> (r: Result<bool, String>)
        ensures
            ({
                let (res, after) = observe_spec(old(self)@, *sample);
                &&& final(self)@ == after
                &&& match r {
                    Ok(b) => res == Ok::<bool, Seq<char>>(b),
                    Err(e) => res == Err::<bool, Seq<char>>(e@),
                }
            }),
    {
        let ghost before = self@;
        if sample.execution_ids.len() == 0 || sample.execution_ids.len() > MAX_EXECUTIONS {
            return Err("invalid service sample extent or duration".to_owned());
        }
        let found = find_record(&self.issued, sample);
        let i = match found {
            None => {
                return Ok(false);
            },
            Some(i) => i,
        };
        let stage = sample.stage_index;
        assert(before.issued[i as int] == self.issued@[i as int]@);
        if self.issued[i].shape != sample.shape || stage >= self.issued[i].samples.len() {
            return Err("service sample differs from accepted issue membership".to_owned());
        }
        match self.issued[i].samples[stage] {
            Some(old) => {
                if old == sample.rpc_us {
                    return Ok(false);
                } else {
                    return Err("conflicting service sample".to_owned());
                }
            },
            None => {},
        }
        let mut record = self.issued.remove(i);
        record.samples.set(stage, Some(sample.rpc_us));
        let ghost record_view = record@;
        self.issued.insert(i, record);
        proof {
            assert(self.issued@.map_values(|r: Issued| r@) =~= before.issued.update(i as int, record_view));
        }
        // Decode-only flights consume stage service too. They take part in
        // calibration and in the unconfirmed-work projection.
        let ghost ps = self.profiles@.map_values(|p: Profile| p@);
        let found_profile = find_profile(&self.profiles, sample);
        let mut profile = match found_profile {
            Some(j) => {
                let p = self.profiles.remove(j);
                proof {
                    assert(self.profiles@.map_values(|p: Profile| p@) =~= ps.remove(j as int));
                }
                p
            },
            None => Profile {
                load: sample.load_generation,
                session: sample.session_id.clone(),
                stage: sample.stage_index,
                shape: sample.shape,
                recent_us: Vec::new(),
            },
        };
        if profile.recent_us.len() == RECENT {
            profile.recent_us.remove(0);
        }
        profile.recent_us.push(sample.rpc_us);
        let ghost rest = self.profiles@.map_values(|p: Profile| p@);
        if self.profiles.len() == PROFILE {
            self.profiles.remove(0);
            proof {
                assert(self.profiles@.map_values(|p: Profile| p@) =~= rest.drop_first());
            }
        }
        let ghost kept = self.profiles@.map_values(|p: Profile| p@);
        let ghost pv = profile@;
        self.profiles.push(profile);
        proof {
            assert(self.profiles@.map_values(|p: Profile| p@) =~= kept.push(pv));
            assert(self@.profiles =~= profiles_after(before.profiles, *sample));
        }
        Ok(true)
    }
}

/// The first record at or after `k` whose batch is no longer open.
pub open spec fn first_closed_from(issued: Seq<IssuedView>, open: Set<u64>, k: int) -> Option<int>
    decreases issued.len() - k,
{
    if k < 0 || k >= issued.len() {
        None
    } else if !open.contains(issued[k].ordinal) {
        Some(k)
    } else {
        first_closed_from(issued, open, k + 1)
    }
}

/// Expires optimization history below `HISTORY` records, oldest closed
/// first. Live issued authority never expires: when every record is still
/// open the result says so (`true`), and nothing more is removed.
pub open spec fn evict(issued: Seq<IssuedView>, open: Set<u64>) -> (Seq<IssuedView>, bool)
    decreases issued.len(),
{
    if issued.len() < HISTORY {
        (issued, false)
    } else {
        match first_closed_from(issued, open, 0) {
            None => (issued, true),
            Some(i) => if 0 <= i < issued.len() {
                evict(issued.remove(i), open)
            } else {
                (issued, true)
            },
        }
    }
}

/// The record a registration adds.
pub open spec fn registered(s: ServiceSample, ordinal: u64, stages: usize) -> IssuedView {
    IssuedView {
        load: s.load_generation,
        session: s.session_id@,
        ordinal,
        executions: s.execution_ids@,
        shape: s.shape,
        samples: Seq::new(stages as nat, |k: int| None::<u64>),
    }
}

/// What registering a head sample leaves behind, or `None` when the
/// sample would then contradict the record it matches.
pub open spec fn register_spec(
    bv: BudgetView,
    s: ServiceSample,
    ordinal: u64,
    stages: usize,
    open: Set<u64>,
) -> Option<BudgetView> {
    let (kept, blocked) = evict(bv.issued, open);
    let trimmed = BudgetView { issued: kept, ..bv };
    if blocked || !extent_ok(s) || stages > MAX_STAGES {
        Some(trimmed)
    } else {
        let pushed = BudgetView { issued: kept.push(registered(s, ordinal, stages)), ..bv };
        let (res, after) = observe_spec(pushed, s);
        if res is Ok {
            Some(after)
        } else {
            None
        }
    }
}

fn contains_key(keys: &Vec<u64>, k: u64) -> (r: bool)
    ensures
        r == keys@.contains(k),
{
    let mut i: usize = 0;
    while i < keys.len()
        invariant
            i <= keys@.len(),
            forall|q: int| 0 <= q < i ==> keys@[q] != k,
        decreases keys@.len() - i,
    {
        if keys[i] == k {
            assert(keys@[i as int] == k);
            return true;
        }
        i += 1;
    }
    false
}

fn find_closed(issued: &Vec<Issued>, keys: &Vec<u64>) -> (r: Option<usize>)
    ensures
        r matches Some(i) ==> i < issued@.len() && first_closed_from(
            issued@.map_values(|r: Issued| r@),
            keys@.to_set(),
            0,
        ) == Some(i as int),
        r is None ==> first_closed_from(issued@.map_values(|r: Issued| r@), keys@.to_set(), 0) is None,
{
    let ghost v = issued@.map_values(|r: Issued| r@);
    let mut i: usize = 0;
    while i < issued.len()
        invariant
            i <= issued@.len(),
            v == issued@.map_values(|r: Issued| r@),
            first_closed_from(v, keys@.to_set(), 0) == first_closed_from(v, keys@.to_set(), i as int),
        decreases issued@.len() - i,
    {
        if !contains_key(keys, issued[i].ordinal) {
            return Some(i);
        }
        i += 1;
    }
    None
}

impl ServiceBudget {
    /// Registers the head's own sample for a batch it just issued. History
    /// may expire, but live issued authority cannot: a late sample for an
    /// expired record stays unknown rather than becoming zero.
    pub fn register(
        &mut self,
        sample: ServiceSample,
        ordinal: u64,
        stages: usize,
        open: &std::collections::BTreeMap<u64, std::collections::BTreeSet<u64>>,
    )
        requires
            register_spec(old(self)@, sample, ordinal, stages, open@.dom()) is Some,
        ensures
            final(self)@ == register_spec(old(self)@, sample, ordinal, stages, open@.dom())->0,
    {
        let keys = open_keys(open);
        let ghost target = register_spec(self@, sample, ordinal, stages, open@.dom());
        let ghost start = self@;
        loop
            invariant
                keys@.to_set() == open@.dom(),
                evict(self@.issued, open@.dom()) == evict(start.issued, open@.dom()),
                self@.budget_us == start.budget_us,
                self@.profiles == start.profiles,
            ensures
                evict(start.issued, open@.dom()) == (self@.issued, self@.issued.len() >= HISTORY),
                self@.budget_us == start.budget_us,
                self@.profiles == start.profiles,
            decreases self.issued@.len(),
        {
            if self.issued.len() < HISTORY {
                break ;
            }
            match find_closed(&self.issued, &keys) {
                None => {
                    break ;
                },
                Some(i) => {
                    let ghost before = self.issued@.map_values(|r: Issued| r@);
                    self.issued.remove(i);
                    proof {
                        assert(self.issued@.map_values(|r: Issued| r@) =~= before.remove(i as int));
                    }
                },
            }
        }
        if self.issued.len() >= HISTORY {
            return ;
        }
        if sample.execution_ids.len() == 0 || sample.execution_ids.len() > MAX_EXECUTIONS || stages
            > MAX_STAGES {
            return ;
        }
        let mut samples: Vec<Option<u64>> = Vec::new();
        while samples.len() < stages
            invariant
                samples@.len() <= stages,
                forall|k: int| 0 <= k < samples@.len() ==> samples@[k] is None,
            decreases stages - samples@.len(),
        {
            samples.push(None);
        }
        let ghost kept = self@.issued;
        let record = Issued {
            load: sample.load_generation,
            session: sample.session_id.clone(),
            ordinal,
            executions: copy_ids(&sample.execution_ids),
            shape: sample.shape,
            samples,
        };
        proof {
            assert(record@.samples =~= registered(sample, ordinal, stages).samples);
            assert(record@ == registered(sample, ordinal, stages));
        }
        self.issued.push(record);
        proof {
            assert(self@.issued =~= kept.push(registered(sample, ordinal, stages)));
        }
        match self.observe(&sample) {
            Ok(_) => {},
            Err(_) => {},
        }
    }
}

/// Saturation at the top of a fixed-width unsigned range.
pub open spec fn sat(x: int, top: int) -> int {
    if x > top {
        top
    } else {
        x
    }
}

pub open spec fn ceil_div(a: int, b: int) -> int {
    if a % b == 0 {
        a / b
    } else {
        a / b + 1
    }
}

pub open spec fn max2(a: int, b: int) -> int {
    if a >= b {
        a
    } else {
        b
    }
}

pub open spec fn min2(a: int, b: int) -> int {
    if a <= b {
        a
    } else {
        b
    }
}

/// The largest recent sample, if any.
pub open spec fn max_recent(r: Seq<u64>) -> Option<u64>
    decreases r.len(),
{
    if r.len() == 0 {
        None
    } else {
        match max_recent(r.drop_last()) {
            None => Some(r.last()),
            Some(m) => Some(
                if m >= r.last() {
                    m
                } else {
                    r.last()
                },
            ),
        }
    }
}

/// A profile measured in the same load, session, stage and context bucket,
/// with prefill and decode rows present or absent alike.
pub open spec fn bucket_matches(
    p: ProfileView,
    load: u64,
    session: Seq<char>,
    stage: usize,
    shape: ServiceShape,
) -> bool {
    &&& p.load == load
    &&& p.session == session
    &&& p.stage == stage
    &&& (p.shape.prefill_rows > 0) == (shape.prefill_rows > 0)
    &&& (p.shape.decode_rows > 0) == (shape.decode_rows > 0)
    &&& p.shape.last_position.leading_zeros() == shape.last_position.leading_zeros()
}

/// The matching profiles, newest first.
pub open spec fn matching(
    ps: Seq<ProfileView>,
    load: u64,
    session: Seq<char>,
    stage: usize,
    shape: ServiceShape,
) -> Seq<ProfileView>
    decreases ps.len(),
{
    if ps.len() == 0 {
        Seq::empty()
    } else if bucket_matches(ps.last(), load, session, stage, shape) {
        seq![ps.last()] + matching(ps.drop_last(), load, session, stage, shape)
    } else {
        matching(ps.drop_last(), load, session, stage, shape)
    }
}

pub open spec fn first_comparable(list: Seq<ProfileView>, shape: ServiceShape) -> Option<ProfileView>
    decreases list.len(),
{
    if list.len() == 0 {
        None
    } else if comparable(list[0].shape, shape) {
        Some(list[0])
    } else {
        first_comparable(list.drop_first(), shape)
    }
}

/// Scaling one dimension: a wider candidate never costs less than its
/// proportional share, and an unmeasured dimension makes no estimate.
pub open spec fn grow_dim(est: int, base: int, wanted: usize, observed: usize) -> Option<int> {
    if wanted > observed {
        if observed == 0 {
            None
        } else {
            Some(max2(est, ceil_div(sat(base * wanted, u128::MAX as int), observed as int)))
        }
    } else {
        Some(est)
    }
}

/// Stretching to a later context position scales by position.
pub open spec fn stretch(est: int, wanted: u32, observed: u32) -> int {
    if wanted > observed {
        ceil_div(sat(est * (wanted + 1), u128::MAX as int), observed + 1)
    } else {
        est
    }
}

/// The proportional estimate from one profile: a bounded empirical
/// extrapolation, never assuming a smaller candidate is cheaper than its
/// source sample.
pub open spec fn scaled_estimate(p: ProfileView, shape: ServiceShape) -> Option<u64> {
    match max_recent(p.recent) {
        None => None,
        Some(m) => {
            let base = m as int;
            match grow_dim(base, base, shape.prefill_rows, p.shape.prefill_rows) {
                None => None,
                Some(e1) => match grow_dim(e1, base, shape.decode_rows, p.shape.decode_rows) {
                    None => None,
                    Some(e2) => match grow_dim(e2, base, shape.members, p.shape.members) {
                        None => None,
                        Some(e3) => Some(
                            min2(
                                stretch(e3, shape.last_position, p.shape.last_position),
                                u64::MAX as int,
                            ) as u64,
                        ),
                    },
                },
            }
        },
    }
}

pub open spec fn opt_min(a: Option<u64>, b: Option<u64>) -> Option<u64> {
    match (a, b) {
        (None, _) => b,
        (_, None) => a,
        (Some(x), Some(y)) => Some(
            if x <= y {
                x
            } else {
                y
            },
        ),
    }
}

pub open spec fn opt_max(a: Option<u64>, b: Option<u64>) -> Option<u64> {
    match (a, b) {
        (None, _) => b,
        (_, None) => a,
        (Some(x), Some(y)) => Some(
            if x >= y {
                x
            } else {
                y
            },
        ),
    }
}

pub open spec fn scaled_min(list: Seq<ProfileView>, shape: ServiceShape) -> Option<u64>
    decreases list.len(),
{
    if list.len() == 0 {
        None
    } else {
        opt_min(scaled_min(list.drop_last(), shape), scaled_estimate(list.last(), shape))
    }
}

/// The fixed-cost estimate from repeated measurements at two widths: equal
/// decode and member shapes, increasing measured cost, and at least a
/// doubling of prefill width. An empirical estimate only.
pub open spec fn affine_pair(low: ProfileView, high: ProfileView, shape: ServiceShape) -> Option<u64> {
    if low.recent.len() < 2 || high.recent.len() < 2 || low.shape.prefill_rows == 0
        || high.shape.prefill_rows <= low.shape.prefill_rows || high.shape.prefill_rows < sat(
        low.shape.prefill_rows * 2,
        usize::MAX as int,
    ) || shape.prefill_rows < high.shape.prefill_rows || low.shape.decode_rows
        != shape.decode_rows || high.shape.decode_rows != shape.decode_rows || low.shape.members
        != shape.members || high.shape.members != shape.members {
        None
    } else {
        let lower = max_recent(low.recent)->0 as int;
        let upper = max_recent(high.recent)->0 as int;
        if upper <= lower {
            None
        } else {
            let width = high.shape.prefill_rows - low.shape.prefill_rows;
            let extra = shape.prefill_rows - high.shape.prefill_rows;
            let est = sat(
                upper + ceil_div(sat((upper - lower) * extra, u128::MAX as int), width),
                u128::MAX as int,
            );
            let position = if low.shape.last_position <= high.shape.last_position {
                low.shape.last_position
            } else {
                high.shape.last_position
            };
            Some(min2(stretch(est, shape.last_position, position), u64::MAX as int) as u64)
        }
    }
}

pub open spec fn affine_row(low: ProfileView, highs: Seq<ProfileView>, shape: ServiceShape) -> Option<
    u64,
>
    decreases highs.len(),
{
    if highs.len() == 0 {
        None
    } else {
        opt_max(affine_row(low, highs.drop_last(), shape), affine_pair(low, highs.last(), shape))
    }
}

pub open spec fn affine_all(lows: Seq<ProfileView>, highs: Seq<ProfileView>, shape: ServiceShape) -> Option<
    u64,
>
    decreases lows.len(),
{
    if lows.len() == 0 {
        None
    } else {
        opt_max(affine_all(lows.drop_last(), highs, shape), affine_row(lows.last(), highs, shape))
    }
}

/// Predicted RPC time of `shape` at `stage`: the worst recent sample of a
/// comparable profile, else the fixed-cost estimate, else the proportional one.
pub open spec fn predict_spec(
    ps: Seq<ProfileView>,
    load: u64,
    session: Seq<char>,
    stage: usize,
    shape: ServiceShape,
) -> Option<u64> {
    let list = matching(ps, load, session, stage, shape);
    match first_comparable(list, shape) {
        Some(p) => max_recent(p.recent),
        None => {
            let affine = affine_all(list, list, shape);
            if affine is Some {
                affine
            } else {
                scaled_min(list, shape)
            }
        },
    }
}

proof fn lemma_ceil_div_le(a: int, b: int)
    requires
        a >= 0,
        b >= 1,
    ensures
        0 <= ceil_div(a, b) <= a,
{
    assert(0 <= a / b <= a) by (nonlinear_arith)
        requires
            a >= 0,
            b >= 1,
    ;
    if a % b != 0 {
        assert(a / b < a) by (nonlinear_arith)
            requires
                a >= 0,
                b >= 1,
                a % b != 0,
        ;
    }
}

fn max_of(v: &Vec<u64>) -> (r: Option<u64>)
    ensures
        r == max_recent(v@),
{
    let mut best: Option<u64> = None;
    let mut i: usize = 0;
    while i < v.len()
        invariant
            i <= v@.len(),
            best == max_recent(v@.subrange(0, i as int)),
        decreases v@.len() - i,
    {
        proof {
            assert(v@.subrange(0, i + 1).drop_last() =~= v@.subrange(0, i as int));
        }
        let x = v[i];
        best = match best {
            None => Some(x),
            Some(m) => Some(
                if m >= x {
                    m
                } else {
                    x
                },
            ),
        };
        i += 1;
    }
    assert(v@.subrange(0, v@.len() as int) =~= v@);
    best
}

fn sat_mul(a: u128, b: u128) -> (r: u128)
    ensures
        r == sat(a * b, u128::MAX as int),
{
    match a.checked_mul(b) {
        Some(x) => x,
        None => u128::MAX,
    }
}

fn ceil_div_exec(a: u128, b: u128) -> (r: u128)
    requires
        b >= 1,
    ensures
        r == ceil_div(a as int, b as int),
{
    proof {
        lemma_ceil_div_le(a as int, b as int);
    }
    let q = a / b;
    if a % b == 0 {
        q
    } else {
        q + 1
    }
}

fn grow_dim_exec(est: u128, base: u128, wanted: usize, observed: usize) -> (r: Option<u128>)
    ensures
        r matches Some(x) ==> grow_dim(est as int, base as int, wanted, observed) == Some(x as int),
        r is None ==> grow_dim(est as int, base as int, wanted, observed) is None,
{
    if wanted > observed {
        if observed == 0 {
            None
        } else {
            let c = ceil_div_exec(sat_mul(base, wanted as u128), observed as u128);
            Some(
                if est >= c {
                    est
                } else {
                    c
                },
            )
        }
    } else {
        Some(est)
    }
}

fn stretch_exec(est: u128, wanted: u32, observed: u32) -> (r: u128)
    ensures
        r == stretch(est as int, wanted, observed),
{
    if wanted > observed {
        ceil_div_exec(sat_mul(est, wanted as u128 + 1), observed as u128 + 1)
    } else {
        est
    }
}

fn to_u64(x: u128) -> (r: u64)
    ensures
        r == min2(x as int, u64::MAX as int),
{
    if x > u64::MAX as u128 {
        u64::MAX
    } else {
        x as u64
    }
}

fn estimate_scaled(p: &Profile, shape: &ServiceShape) -> (r: Option<u64>)
    ensures
        r == scaled_estimate(p@, *shape),
{
    let m = match max_of(&p.recent_us) {
        None => {
            return None;
        },
        Some(m) => m,
    };
    let base = m as u128;
    let e1 = match grow_dim_exec(base, base, shape.prefill_rows, p.shape.prefill_rows) {
        None => {
            return None;
        },
        Some(e) => e,
    };
    let e2 = match grow_dim_exec(e1, base, shape.decode_rows, p.shape.decode_rows) {
        None => {
            return None;
        },
        Some(e) => e,
    };
    let e3 = match grow_dim_exec(e2, base, shape.members, p.shape.members) {
        None => {
            return None;
        },
        Some(e) => e,
    };
    Some(to_u64(stretch_exec(e3, shape.last_position, p.shape.last_position)))
}

fn double_sat(x: usize) -> (r: usize)
    ensures
        r == sat(x * 2, usize::MAX as int),
{
    match x.checked_mul(2) {
        Some(y) => y,
        None => usize::MAX,
    }
}

fn estimate_affine(low: &Profile, high: &Profile, shape: &ServiceShape) -> (r: Option<u64>)
    ensures
        r == affine_pair(low@, high@, *shape),
{
    if low.recent_us.len() < 2 || high.recent_us.len() < 2 || low.shape.prefill_rows == 0
        || high.shape.prefill_rows <= low.shape.prefill_rows || high.shape.prefill_rows
        < double_sat(low.shape.prefill_rows) || shape.prefill_rows < high.shape.prefill_rows
        || low.shape.decode_rows != shape.decode_rows || high.shape.decode_rows
        != shape.decode_rows || low.shape.members != shape.members || high.shape.members
        != shape.members {
        return None;
    }
    let lower = match max_of(&low.recent_us) {
        Some(x) => x as u128,
        None => {
            return None;
        },
    };
    let upper = match max_of(&high.recent_us) {
        Some(x) => x as u128,
        None => {
            return None;
        },
    };
    if upper <= lower {
        return None;
    }
    let width = (high.shape.prefill_rows - low.shape.prefill_rows) as u128;
    let extra = (shape.prefill_rows - high.shape.prefill_rows) as u128;
    let est = upper.saturating_add(ceil_div_exec(sat_mul(upper - lower, extra), width));
    let position = if low.shape.last_position <= high.shape.last_position {
        low.shape.last_position
    } else {
        high.shape.last_position
    };
    Some(to_u64(stretch_exec(est, shape.last_position, position)))
}

fn bucket_matches_exec(p: &Profile, load: u64, session: &String, stage: usize, shape: &ServiceShape) -> (r:
    bool)
    ensures
        r == bucket_matches(p@, load, session@, stage, *shape),
{
    p.load == load && p.session == *session && p.stage == stage && (p.shape.prefill_rows > 0) == (
    shape.prefill_rows > 0) && (p.shape.decode_rows > 0) == (shape.decode_rows > 0)
        && p.shape.last_position.leading_zeros() == shape.last_position.leading_zeros()
}

/// Indices of the matching profiles, newest first.
fn matching_indices(
    profiles: &Vec<Profile>,
    load: u64,
    session: &String,
    stage: usize,
    shape: &ServiceShape,
) -> (idx: Vec<usize>)
    ensures
        forall|k: int| 0 <= k < idx@.len() ==> #[trigger] idx@[k] < profiles@.len(),
        idx@.map_values(|i: usize| profiles@[i as int]@) == matching(
            profiles@.map_values(|p: Profile| p@),
            load,
            session@,
            stage,
            *shape,
        ),
{
    let ghost ps = profiles@.map_values(|p: Profile| p@);
    let mut idx: Vec<usize> = Vec::new();
    let mut k = profiles.len();
    proof {
        assert(ps.take(k as int) =~= ps);
        assert(idx@.map_values(|i: usize| profiles@[i as int]@) =~= Seq::<ProfileView>::empty());
        assert(Seq::<ProfileView>::empty() + matching(ps, load, session@, stage, *shape) =~= matching(
            ps,
            load,
            session@,
            stage,
            *shape,
        ));
    }
    while k > 0
        invariant
            k <= profiles@.len(),
            ps == profiles@.map_values(|p: Profile| p@),
            forall|q: int| 0 <= q < idx@.len() ==> #[trigger] idx@[q] < profiles@.len(),
            idx@.map_values(|i: usize| profiles@[i as int]@) + matching(
                ps.take(k as int),
                load,
                session@,
                stage,
                *shape,
            ) == matching(ps, load, session@, stage, *shape),
        decreases k,
    {
        let i = k - 1;
        proof {
            assert(ps.take(k as int).drop_last() =~= ps.take(i as int));
            assert(ps.take(k as int).last() == ps[i as int]);
        }
        let ghost before = idx@;
        if bucket_matches_exec(&profiles[i], load, session, stage, shape) {
            idx.push(i);
            proof {
                assert(idx@.map_values(|j: usize| profiles@[j as int]@) =~= before.map_values(
                    |j: usize| profiles@[j as int]@,
                ).push(ps[i as int]));
                assert(seq![ps[i as int]] + matching(ps.take(i as int), load, session@, stage, *shape)
                    == matching(ps.take(k as int), load, session@, stage, *shape));
                assert(before.map_values(|j: usize| profiles@[j as int]@).push(ps[i as int]) + matching(
                    ps.take(i as int),
                    load,
                    session@,
                    stage,
                    *shape,
                ) =~= before.map_values(|j: usize| profiles@[j as int]@) + (seq![ps[i as int]]
                    + matching(ps.take(i as int), load, session@, stage, *shape)));
            }
        }
        k = i;
    }
    proof {
        assert(ps.take(0) =~= Seq::<ProfileView>::empty());
        assert(idx@.map_values(|i: usize| profiles@[i as int]@) + Seq::<ProfileView>::empty()
            =~= idx@.map_values(|i: usize| profiles@[i as int]@));
    }
    idx
}

fn predict(
    profiles: &Vec<Profile>,
    load: u64,
    session: &String,
    stage: usize,
    shape: &ServiceShape,
) -> (r: Option<u64>)
    ensures
        r == predict_spec(profiles@.map_values(|p: Profile| p@), load, session@, stage, *shape),
{
    let idx = matching_indices(profiles, load, session, stage, shape);
    let ghost list = idx@.map_values(|i: usize| profiles@[i as int]@);
    // A comparable profile answers directly.
    let mut q: usize = 0;
    assert(list.subrange(0, list.len() as int) =~= list);
    while q < idx.len()
        invariant
            q <= idx@.len(),
            list == idx@.map_values(|i: usize| profiles@[i as int]@),
            forall|k: int| 0 <= k < idx@.len() ==> #[trigger] idx@[k] < profiles@.len(),
            first_comparable(list, *shape) == first_comparable(list.subrange(q as int, list.len() as int), *shape),
            list == matching(profiles@.map_values(|p: Profile| p@), load, session@, stage, *shape),
        decreases idx@.len() - q,
    {
        let p = &profiles[idx[q]];
        proof {
            assert(list.subrange(q as int, list.len() as int).drop_first() =~= list.subrange(q + 1, list.len() as int));
            assert(list.subrange(q as int, list.len() as int)[0] == p@);
        }
        if comparable_exec(&p.shape, shape) {
            proof {
                assert(first_comparable(list, *shape) == Some(p@));
            }
            return max_of(&p.recent_us);
        }
        q += 1;
    }
    assert(list.subrange(idx@.len() as int, list.len() as int) =~= Seq::<ProfileView>::empty());
    // Otherwise the fixed-cost estimate over every pair, then the proportional one.
    let mut affine: Option<u64> = None;
    let mut a: usize = 0;
    while a < idx.len()
        invariant
            a <= idx@.len(),
            list == idx@.map_values(|i: usize| profiles@[i as int]@),
            forall|k: int| 0 <= k < idx@.len() ==> #[trigger] idx@[k] < profiles@.len(),
            affine == affine_all(list.take(a as int), list, *shape),
        decreases idx@.len() - a,
    {
        let low = &profiles[idx[a]];
        let mut row: Option<u64> = None;
        let mut h: usize = 0;
        while h < idx.len()
            invariant
                h <= idx@.len(),
                a < idx@.len(),
                list == idx@.map_values(|i: usize| profiles@[i as int]@),
                forall|k: int| 0 <= k < idx@.len() ==> #[trigger] idx@[k] < profiles@.len(),
                low@ == list[a as int],
                row == affine_row(list[a as int], list.take(h as int), *shape),
            decreases idx@.len() - h,
        {
            let high = &profiles[idx[h]];
            proof {
                assert(list.take(h + 1).drop_last() =~= list.take(h as int));
            }
            let e = estimate_affine(low, high, shape);
            row = match (row, e) {
                (None, _) => e,
                (_, None) => row,
                (Some(x), Some(y)) => Some(
                    if x >= y {
                        x
                    } else {
                        y
                    },
                ),
            };
            h += 1;
        }
        proof {
            assert(list.take(idx@.len() as int) =~= list);
            assert(list.take(a + 1).drop_last() =~= list.take(a as int));
        }
        affine = match (affine, row) {
            (None, _) => row,
            (_, None) => affine,
            (Some(x), Some(y)) => Some(
                if x >= y {
                    x
                } else {
                    y
                },
            ),
        };
        a += 1;
    }
    assert(list.take(idx@.len() as int) =~= list);
    if affine.is_some() {
        return affine;
    }
    let mut scaled: Option<u64> = None;
    let mut c: usize = 0;
    while c < idx.len()
        invariant
            c <= idx@.len(),
            list == idx@.map_values(|i: usize| profiles@[i as int]@),
            forall|k: int| 0 <= k < idx@.len() ==> #[trigger] idx@[k] < profiles@.len(),
            scaled == scaled_min(list.take(c as int), *shape),
        decreases idx@.len() - c,
    {
        proof {
            assert(list.take(c + 1).drop_last() =~= list.take(c as int));
        }
        let e = estimate_scaled(&profiles[idx[c]], shape);
        scaled = match (scaled, e) {
            (None, _) => e,
            (_, None) => scaled,
            (Some(x), Some(y)) => Some(
                if x <= y {
                    x
                } else {
                    y
                },
            ),
        };
        c += 1;
    }
    assert(list.take(idx@.len() as int) =~= list);
    scaled
}


/// The last stage with a sample, if any: a downstream completion proves
/// that the earlier stages have run, even when their telemetry is late.
pub open spec fn last_sampled(samples: Seq<Option<u64>>) -> Option<int>
    decreases samples.len(),
{
    if samples.len() == 0 {
        None
    } else if samples.last() is Some {
        Some(samples.len() - 1)
    } else {
        last_sampled(samples.drop_last())
    }
}

/// One batch through the first `n` stages of the FIFO projection. A stage
/// it still has to run starts once the batch has arrived there and the stage
/// is free, and then stays busy until the predicted cost has passed. Stages
/// up to `done` have already run. `free` holds when each stage frees up;
/// the result adds the batch's arrival after stage `n - 1`.
pub open spec fn pass(
    ps: Seq<ProfileView>,
    load: u64,
    session: Seq<char>,
    shape: ServiceShape,
    done: Option<int>,
    free: Seq<u64>,
    n: nat,
) -> Option<(Seq<u64>, u64)>
    decreases n,
{
    if n == 0 {
        Some((free, 0u64))
    } else {
        match pass(ps, load, session, shape, done, free, (n - 1) as nat) {
            None => None,
            Some((f, arrival)) => {
                let stage = n - 1;
                if done matches Some(last) && stage <= last {
                    Some((f, arrival))
                } else {
                    match predict_spec(ps, load, session, stage as usize, shape) {
                        None => None,
                        Some(cost) => {
                            let a = sat(max2(arrival as int, f[stage] as int) + cost, u64::MAX as int) as u64;
                            Some((f.update(stage, a), a))
                        },
                    }
                }
            },
        }
    }
}

/// The first record at or after `k` of this batch in this load and session.
pub open spec fn first_live_from(
    issued: Seq<IssuedView>,
    ordinal: u64,
    load: u64,
    session: Seq<char>,
    k: int,
) -> Option<int>
    decreases issued.len() - k,
{
    if k < 0 || k >= issued.len() {
        None
    } else if issued[k].ordinal == ordinal && issued[k].load == load && issued[k].session == session {
        Some(k)
    } else {
        first_live_from(issued, ordinal, load, session, k + 1)
    }
}

/// When each stage frees up after the open batches `keys`, in order, have
/// passed; `None` when a batch is unknown or a cost cannot be predicted.
pub open spec fn queue_free(
    bv: BudgetView,
    load: u64,
    session: Seq<char>,
    stages: usize,
    keys: Seq<u64>,
) -> Option<Seq<u64>>
    decreases keys.len(),
{
    if keys.len() == 0 {
        Some(Seq::new(stages as nat, |i: int| 0u64))
    } else {
        match queue_free(bv, load, session, stages, keys.drop_last()) {
            None => None,
            Some(free) => match first_live_from(bv.issued, keys.last(), load, session, 0) {
                None => None,
                Some(i) => match pass(
                    bv.profiles,
                    load,
                    session,
                    bv.issued[i].shape,
                    last_sampled(bv.issued[i].samples),
                    free,
                    stages as nat,
                ) {
                    None => None,
                    Some((f, _)) => Some(f),
                },
            },
        }
    }
}

/// Predicted arrival of a candidate after the last stage, queued behind
/// every open batch (`keys`, ascending).
pub open spec fn project_tail_spec(
    bv: BudgetView,
    load: u64,
    session: Seq<char>,
    stages: usize,
    shape: ServiceShape,
    keys: Seq<u64>,
) -> Option<u64> {
    if stages == 0 || stages > MAX_STAGES {
        None
    } else {
        match queue_free(bv, load, session, stages, keys) {
            None => None,
            Some(free) => match pass(bv.profiles, load, session, shape, None, free, stages as nat) {
                None => None,
                Some((_, a)) => Some(a),
            },
        }
    }
}

fn last_sampled_exec(samples: &Vec<Option<u64>>) -> (r: Option<usize>)
    ensures
        r matches Some(k) ==> k < samples@.len() && last_sampled(samples@) == Some(k as int),
        r is None ==> last_sampled(samples@) is None,
{
    let mut k = samples.len();
    assert(samples@.take(k as int) =~= samples@);
    while k > 0
        invariant
            k <= samples@.len(),
            last_sampled(samples@) == last_sampled(samples@.take(k as int)),
        decreases k,
    {
        proof {
            assert(samples@.take(k as int).drop_last() =~= samples@.take(k - 1));
        }
        if samples[k - 1].is_some() {
            return Some(k - 1);
        }
        k -= 1;
    }
    None
}

proof fn lemma_pass_len(
    ps: Seq<ProfileView>,
    load: u64,
    session: Seq<char>,
    shape: ServiceShape,
    done: Option<int>,
    free: Seq<u64>,
    n: nat,
)
    requires
        n <= free.len(),
    ensures
        pass(ps, load, session, shape, done, free, n) matches Some((f, _)) ==> f.len() == free.len(),
    decreases n,
{
    if n > 0 {
        lemma_pass_len(ps, load, session, shape, done, free, (n - 1) as nat);
    }
}

/// Runs one batch through every stage of `free`, updating it in place.
fn run_pass(
    profiles: &Vec<Profile>,
    load: u64,
    session: &String,
    shape: &ServiceShape,
    done: Option<usize>,
    free: &mut Vec<u64>,
) -> (r: Option<u64>)
    ensures
        match pass(
            profiles@.map_values(|p: Profile| p@),
            load,
            session@,
            *shape,
            match done {
                Some(d) => Some(d as int),
                None => None,
            },
            old(free)@,
            old(free)@.len(),
        ) {
            None => r is None,
            Some((f, a)) => r == Some(a) && final(free)@ == f,
        },
{
    let ghost ps = profiles@.map_values(|p: Profile| p@);
    let ghost d: Option<int> = match done {
        Some(x) => Some(x as int),
        None => None,
    };
    let ghost start = free@;
    let n = free.len();
    let mut arrival: Option<u64> = Some(0);
    let mut stage: usize = 0;
    while stage < n
        invariant
            stage <= n,
            n == start.len(),
            ps == profiles@.map_values(|p: Profile| p@),
            d == match done {
                Some(x) => Some(x as int),
                None => None,
            },
            free@.len() == n,
            match pass(ps, load, session@, *shape, d, start, stage as nat) {
                None => arrival is None,
                Some((f, a)) => arrival == Some(a) && free@ == f,
            },
        decreases n - stage,
    {
        proof {
            lemma_pass_len(ps, load, session@, *shape, d, start, stage as nat);
        }
        let ghost prev = pass(ps, load, session@, *shape, d, start, stage as nat);
        let ghost next_spec = pass(ps, load, session@, *shape, d, start, (stage + 1) as nat);
        if let Some(a) = arrival {
            let skip = match done {
                Some(last) => stage <= last,
                None => false,
            };
            if !skip {
                match predict(profiles, load, session, stage, shape) {
                    None => {
                        arrival = None;
                    },
                    Some(cost) => {
                        let at = free[stage];
                        let next = (if a >= at {
                            a
                        } else {
                            at
                        }).saturating_add(cost);
                        free.set(stage, next);
                        arrival = Some(next);
                        assert(next_spec == Some((free@, next)));
                    },
                }
            } else {
                assert(next_spec == prev);
            }
        }
        stage += 1;
    }
    arrival
}

fn find_live(issued: &Vec<Issued>, ordinal: u64, load: u64, session: &String) -> (r: Option<usize>)
    ensures
        r matches Some(i) ==> i < issued@.len() && first_live_from(
            issued@.map_values(|r: Issued| r@),
            ordinal,
            load,
            session@,
            0,
        ) == Some(i as int),
        r is None ==> first_live_from(issued@.map_values(|r: Issued| r@), ordinal, load, session@, 0) is None,
{
    let ghost v = issued@.map_values(|r: Issued| r@);
    let mut i: usize = 0;
    while i < issued.len()
        invariant
            i <= issued@.len(),
            v == issued@.map_values(|r: Issued| r@),
            first_live_from(v, ordinal, load, session@, 0) == first_live_from(v, ordinal, load, session@, i as int),
        decreases issued@.len() - i,
    {
        let r = &issued[i];
        if r.ordinal == ordinal && r.load == load && r.session == *session {
            return Some(i);
        }
        i += 1;
    }
    None
}

fn zeros(n: usize) -> (v: Vec<u64>)
    ensures
        v@ == Seq::new(n as nat, |i: int| 0u64),
{
    let mut v: Vec<u64> = Vec::new();
    while v.len() < n
        invariant
            v@.len() <= n,
            forall|k: int| 0 <= k < v@.len() ==> v@[k] == 0,
        decreases n - v@.len(),
    {
        v.push(0);
    }
    assert(v@ =~= Seq::new(n as nat, |i: int| 0u64));
    v
}

impl ServiceBudget {
    /// FIFO projection of a candidate through every stage, behind all open
    /// work, confirmed or not. Excludes unmeasured transfer and return delay.
    fn project_tail(
        &self,
        load: u64,
        session: &String,
        stages: usize,
        shape: &ServiceShape,
        open: &std::collections::BTreeMap<u64, std::collections::BTreeSet<u64>>,
    ) -> (r: Option<u64>)
        ensures
            r == project_tail_spec(self@, load, session@, stages, *shape, ordinals(open@)),
    {
        if stages == 0 || stages > MAX_STAGES {
            return None;
        }
        let keys = open_ordinals_exact(open);
        let mut free = zeros(stages);
        let mut ok = true;
        let mut j: usize = 0;
        proof {
            assert(keys@.take(0) =~= Seq::<u64>::empty());
        }
        while j < keys.len()
            invariant
                j <= keys@.len(),
                0 < stages <= MAX_STAGES,
                match queue_free(self@, load, session@, stages, keys@.take(j as int)) {
                    None => !ok,
                    Some(f) => ok && free@ == f && f.len() == stages,
                },
            decreases keys@.len() - j,
        {
            proof {
                assert(keys@.take(j + 1).drop_last() =~= keys@.take(j as int));
            }
            let ghost prefix = keys@.take(j + 1);
            assert(prefix.last() == keys@[j as int]);
            if ok {
                match find_live(&self.issued, keys[j], load, session) {
                    None => {
                        ok = false;
                    },
                    Some(i) => {
                        assert(self.issued@[i as int]@ == self@.issued[i as int]);
                        let done = last_sampled_exec(&self.issued[i].samples);
                        let ghost before = free@;
                        proof {
                            lemma_pass_len(
                                self@.profiles,
                                load,
                                session@,
                                self@.issued[i as int].shape,
                                last_sampled(self@.issued[i as int].samples),
                                before,
                                stages as nat,
                            );
                        }
                        match run_pass(&self.profiles, load, session, &self.issued[i].shape, done, &mut free) {
                            None => {
                                ok = false;
                            },
                            Some(_) => {
                            },
                        }
                    },
                }
            }
            j += 1;
        }
        proof {
            assert(keys@.take(keys@.len() as int) =~= keys@);
        }
        if !ok {
            return None;
        }
        run_pass(&self.profiles, load, session, shape, None, &mut free)
    }
}


/// The open prefill records of this load and session, oldest first.
pub open spec fn live_records(
    issued: Seq<IssuedView>,
    load: u64,
    session: Seq<char>,
    open: Set<u64>,
) -> Seq<IssuedView>
    decreases issued.len(),
{
    if issued.len() == 0 {
        Seq::empty()
    } else {
        let rest = live_records(issued.drop_last(), load, session, open);
        let r = issued.last();
        if r.load == load && r.session == session && r.shape.prefill_rows > 0 && open.contains(
            r.ordinal,
        ) {
            rest.push(r)
        } else {
            rest
        }
    }
}

/// The work that live records still owe one stage, saturating; `None` when
/// the cost of one of them there cannot be predicted.
pub open spec fn stage_pending(
    ps: Seq<ProfileView>,
    load: u64,
    session: Seq<char>,
    stage: usize,
    live: Seq<IssuedView>,
) -> Option<u64>
    decreases live.len(),
{
    if live.len() == 0 {
        Some(0u64)
    } else {
        match stage_pending(ps, load, session, stage, live.drop_last()) {
            None => None,
            Some(p) => {
                let r = live.last();
                if stage < r.samples.len() && r.samples[stage as int] is Some {
                    Some(p)
                } else {
                    match predict_spec(ps, load, session, stage, r.shape) {
                        None => None,
                        Some(us) => Some(sat(p + us, u64::MAX as int) as u64),
                    }
                }
            },
        }
    }
}

/// Per-stage totals over the first `n` stages.
pub struct StageTotals {
    pub complete: bool,
    pub known: nat,
    pub max_pending: u64,
    pub max_with: u64,
}

pub open spec fn stage_totals(
    ps: Seq<ProfileView>,
    load: u64,
    session: Seq<char>,
    shape: ServiceShape,
    live: Seq<IssuedView>,
    n: nat,
) -> StageTotals
    decreases n,
{
    if n == 0 {
        StageTotals { complete: true, known: 0, max_pending: 0, max_with: 0 }
    } else {
        let t = stage_totals(ps, load, session, shape, live, (n - 1) as nat);
        let stage = (n - 1) as usize;
        match predict_spec(ps, load, session, stage, shape) {
            None => StageTotals { complete: false, ..t },
            Some(c) => match stage_pending(ps, load, session, stage, live) {
                None => StageTotals { complete: false, ..t },
                Some(p) => StageTotals {
                    complete: t.complete,
                    known: t.known + 1,
                    max_pending: max2(t.max_pending as int, p as int) as u64,
                    max_with: max2(t.max_with as int, sat(p + c, u64::MAX as int)) as u64,
                },
            },
        }
    }
}

/// Some open batch has no record in this load and session.
pub open spec fn some_open_unknown(
    issued: Seq<IssuedView>,
    load: u64,
    session: Seq<char>,
    open: Set<u64>,
) -> bool {
    exists|k: u64| #[trigger] open.contains(k) && first_live_from(issued, k, load, session, 0) is None
}

pub struct DecisionView {
    pub verdict: ServiceVerdict,
    pub budget_us: u64,
    pub max_pending_us: u64,
    pub max_with_candidate_us: u64,
    pub known_stages: usize,
    pub stages: usize,
    pub predicted_tail_rpc_us: Option<u64>,
    pub examined_prefill_rows: Seq<usize>,
    pub selected_prefill_rows: Option<usize>,
}

impl View for ServiceDecision {
    type V = DecisionView;

    open spec fn view(&self) -> DecisionView {
        DecisionView {
            verdict: self.verdict,
            budget_us: self.budget_us,
            max_pending_us: self.max_pending_us,
            max_with_candidate_us: self.max_with_candidate_us,
            known_stages: self.known_stages,
            stages: self.stages,
            predicted_tail_rpc_us: self.predicted_tail_rpc_us,
            examined_prefill_rows: self.examined_prefill_rows@,
            selected_prefill_rows: self.selected_prefill_rows,
        }
    }
}

/// The decision on a candidate batch, or `None` while the policy is off.
/// Pure prefill and decode-only batches pass unexamined; beside generation,
/// unknown open work makes the candidate cold; otherwise it is admitted when
/// its projected tail fits the budget, probed when no prefill is in flight,
/// and deferred otherwise.
pub open spec fn decide_spec<V>(
    bv: BudgetView,
    load: u64,
    session: Seq<char>,
    stages: usize,
    shape: ServiceShape,
    decoding: bool,
    open: Map<u64, V>,
) -> Option<DecisionView> {
    match bv.budget_us {
        None => None,
        Some(budget) => {
            let base = DecisionView {
                verdict: ServiceVerdict::PurePrefill,
                budget_us: budget,
                max_pending_us: 0,
                max_with_candidate_us: 0,
                known_stages: 0,
                stages,
                predicted_tail_rpc_us: None,
                examined_prefill_rows: Seq::empty(),
                selected_prefill_rows: None,
            };
            if shape.prefill_rows == 0 {
                Some(DecisionView { verdict: ServiceVerdict::DecodeOnly, ..base })
            } else if !decoding {
                Some(base)
            } else if some_open_unknown(bv.issued, load, session, open.dom()) {
                Some(DecisionView { verdict: ServiceVerdict::Cold, ..base })
            } else {
                let live = live_records(bv.issued, load, session, open.dom());
                let t = stage_totals(bv.profiles, load, session, shape, live, stages as nat);
                let tail = project_tail_spec(bv, load, session, stages, shape, ordinals(open));
                let verdict = if !t.complete || tail is None {
                    ServiceVerdict::Cold
                } else if tail->0 <= budget {
                    ServiceVerdict::Admit
                } else if live.len() == 0 {
                    ServiceVerdict::ProgressProbe
                } else {
                    ServiceVerdict::DeferPrefill
                };
                Some(
                    DecisionView {
                        verdict,
                        max_pending_us: t.max_pending,
                        max_with_candidate_us: t.max_with,
                        known_stages: t.known as usize,
                        predicted_tail_rpc_us: tail,
                        ..base
                    },
                )
            }
        },
    }
}

fn contains_u64(keys: &Vec<u64>, k: u64) -> (r: bool)
    ensures
        r == keys@.contains(k),
{
    let mut i: usize = 0;
    while i < keys.len()
        invariant
            i <= keys@.len(),
            forall|q: int| 0 <= q < i ==> keys@[q] != k,
        decreases keys@.len() - i,
    {
        if keys[i] == k {
            assert(keys@[i as int] == k);
            return true;
        }
        i += 1;
    }
    false
}

fn live_indices(issued: &Vec<Issued>, load: u64, session: &String, keys: &Vec<u64>) -> (idx: Vec<usize>)
    ensures
        forall|k: int| 0 <= k < idx@.len() ==> #[trigger] idx@[k] < issued@.len(),
        idx@.map_values(|i: usize| issued@[i as int]@) == live_records(
            issued@.map_values(|r: Issued| r@),
            load,
            session@,
            keys@.to_set(),
        ),
{
    let ghost v = issued@.map_values(|r: Issued| r@);
    let mut idx: Vec<usize> = Vec::new();
    let mut i: usize = 0;
    proof {
        assert(v.take(0) =~= Seq::<IssuedView>::empty());
        assert(idx@.map_values(|i: usize| issued@[i as int]@) =~= Seq::<IssuedView>::empty());
    }
    while i < issued.len()
        invariant
            i <= issued@.len(),
            v == issued@.map_values(|r: Issued| r@),
            forall|k: int| 0 <= k < idx@.len() ==> #[trigger] idx@[k] < issued@.len(),
            idx@.map_values(|i: usize| issued@[i as int]@) == live_records(
                v.take(i as int),
                load,
                session@,
                keys@.to_set(),
            ),
        decreases issued@.len() - i,
    {
        proof {
            assert(v.take(i + 1).drop_last() =~= v.take(i as int));
        }
        let r = &issued[i];
        let ghost before = idx@;
        if r.load == load && r.session == *session && r.shape.prefill_rows > 0 && contains_u64(
            keys,
            r.ordinal,
        ) {
            idx.push(i);
            proof {
                assert(idx@.map_values(|j: usize| issued@[j as int]@) =~= before.map_values(
                    |j: usize| issued@[j as int]@,
                ).push(v[i as int]));
            }
        }
        i += 1;
    }
    proof {
        assert(v.take(issued@.len() as int) =~= v);
    }
    idx
}

impl ServiceBudget {
    fn pending_at(&self, load: u64, session: &String, stage: usize, live: &Vec<usize>) -> (r: Option<u64>)
        requires
            forall|k: int| 0 <= k < live@.len() ==> #[trigger] live@[k] < self.issued@.len(),
        ensures
            r == stage_pending(
                self@.profiles,
                load,
                session@,
                stage,
                live@.map_values(|i: usize| self.issued@[i as int]@),
            ),
    {
        let ghost list = live@.map_values(|i: usize| self.issued@[i as int]@);
        let mut pending: Option<u64> = Some(0);
        let mut q: usize = 0;
        proof {
            assert(list.take(0) =~= Seq::<IssuedView>::empty());
        }
        while q < live.len()
            invariant
                q <= live@.len(),
                list == live@.map_values(|i: usize| self.issued@[i as int]@),
                forall|k: int| 0 <= k < live@.len() ==> #[trigger] live@[k] < self.issued@.len(),
                pending == stage_pending(self@.profiles, load, session@, stage, list.take(q as int)),
            decreases live@.len() - q,
        {
            proof {
                assert(list.take(q + 1).drop_last() =~= list.take(q as int));
            }
            let r = &self.issued[live[q]];
            if let Some(p) = pending {
                let sampled = stage < r.samples.len() && r.samples[stage].is_some();
                if !sampled {
                    pending = match predict(&self.profiles, load, session, stage, &r.shape) {
                        None => None,
                        Some(us) => Some(p.saturating_add(us)),
                    };
                }
            }
            q += 1;
        }
        proof {
            assert(list.take(live@.len() as int) =~= list);
        }
        pending
    }

    /// The decision on a candidate batch beside the open work, or `None`
    /// while the policy is off. A finite service share: an unattainably
    /// small soft target cannot starve prefill forever, since with no
    /// prefill in flight an over-budget quantum is admitted as a probe.
    pub fn decide(
        &self,
        load: u64,
        session: &str,
        stages: usize,
        shape: &ServiceShape,
        decoding: bool,
        open: &std::collections::BTreeMap<u64, std::collections::BTreeSet<u64>>,
    ) -> (r: Option<ServiceDecision>)
        ensures
            match r {
                None => decide_spec(self@, load, session@, stages, *shape, decoding, open@) is None,
                Some(d) => decide_spec(self@, load, session@, stages, *shape, decoding, open@) == Some(d@),
            },
    {
        let budget_us = match self.budget_us {
            None => {
                return None;
            },
            Some(b) => b,
        };
        let mut decision = ServiceDecision {
            verdict: ServiceVerdict::PurePrefill,
            budget_us,
            max_pending_us: 0,
            max_with_candidate_us: 0,
            known_stages: 0,
            stages,
            predicted_tail_rpc_us: None,
            examined_prefill_rows: Vec::new(),
            selected_prefill_rows: None,
        };
        if shape.prefill_rows == 0 {
            decision.verdict = ServiceVerdict::DecodeOnly;
            return Some(decision);
        }
        if !decoding {
            return Some(decision);
        }
        let sess: String = session.to_owned();
        let keys = open_keys(open);
        let mut j: usize = 0;
        while j < keys.len()
            invariant
                j <= keys@.len(),
                keys@.to_set() == open@.dom(),
                sess@ == session@,
                self.budget_us == Some(budget_us),
                shape.prefill_rows != 0,
                decoding,
                decision@ == (DecisionView {
                    verdict: ServiceVerdict::PurePrefill,
                    budget_us,
                    max_pending_us: 0,
                    max_with_candidate_us: 0,
                    known_stages: 0,
                    stages,
                    predicted_tail_rpc_us: None,
                    examined_prefill_rows: Seq::empty(),
                    selected_prefill_rows: None,
                }),
                forall|q: int|
                    0 <= q < j ==> first_live_from(self@.issued, #[trigger] keys@[q], load, sess@, 0) is Some,
            decreases keys@.len() - j,
        {
            if find_live(&self.issued, keys[j], load, &sess).is_none() {
                proof {
                    assert(keys@.to_set().contains(keys@[j as int]));
                    assert(open@.dom().contains(keys@[j as int]));
                }
                decision.verdict = ServiceVerdict::Cold;
                return Some(decision);
            }
            j += 1;
        }
        proof {
            assert forall|k: u64| #[trigger] open@.dom().contains(k) implies first_live_from(
                self@.issued,
                k,
                load,
                sess@,
                0,
            ) is Some by {
                assert(keys@.to_set().contains(k));
                let q = choose|q: int| 0 <= q < keys@.len() && keys@[q] == k;
            }
        }
        let live = live_indices(&self.issued, load, &sess, &keys);
        let ghost live_view = live@.map_values(|i: usize| self.issued@[i as int]@);
        let mut complete = true;
        let mut stage: usize = 0;
        while stage < stages
            invariant
                stage <= stages,
                forall|k: int| 0 <= k < live@.len() ==> #[trigger] live@[k] < self.issued@.len(),
                live_view == live@.map_values(|i: usize| self.issued@[i as int]@),
                decision.known_stages <= stage,
                stage_totals(self@.profiles, load, sess@, *shape, live_view, stage as nat)
                    == (StageTotals {
                    complete,
                    known: decision.known_stages as nat,
                    max_pending: decision.max_pending_us,
                    max_with: decision.max_with_candidate_us,
                }),
                sess@ == session@,
                decision.budget_us == budget_us,
                decision.stages == stages,
                decision.verdict == ServiceVerdict::PurePrefill,
                decision.predicted_tail_rpc_us is None,
                decision.examined_prefill_rows@.len() == 0,
                decision.selected_prefill_rows is None,
            decreases stages - stage,
        {
            match predict(&self.profiles, load, &sess, stage, shape) {
                None => {
                    complete = false;
                },
                Some(candidate) => match self.pending_at(load, &sess, stage, &live) {
                    None => {
                        complete = false;
                    },
                    Some(pending) => {
                        decision.known_stages = decision.known_stages + 1;
                        if pending > decision.max_pending_us {
                            decision.max_pending_us = pending;
                        }
                        let with = pending.saturating_add(candidate);
                        if with > decision.max_with_candidate_us {
                            decision.max_with_candidate_us = with;
                        }
                    },
                },
            }
            stage += 1;
        }
        decision.predicted_tail_rpc_us = self.project_tail(load, &sess, stages, shape, open);
        decision.verdict = match decision.predicted_tail_rpc_us {
            None => ServiceVerdict::Cold,
            Some(us) => if !complete {
                ServiceVerdict::Cold
            } else if us <= budget_us {
                ServiceVerdict::Admit
            } else if live.len() == 0 {
                ServiceVerdict::ProgressProbe
            } else {
                ServiceVerdict::DeferPrefill
            },
        };
        proof {
            assert(decision.examined_prefill_rows@ =~= Seq::<usize>::empty());
        }
        Some(decision)
    }
}

pub open spec fn setting_message() -> Seq<char> {
    "P4_STAGED_PREFILL_SERVICE_MS must be a positive non-overflowing integer"@
}

/// The policy a configured prefill service budget (in milliseconds) asks
/// for: off when nothing is configured; otherwise the budget in
/// microseconds, or, when the setting is not a positive whole number of
/// milliseconds that fits in microseconds, off with the reason.
pub fn budget_from_setting(setting: Option<&str>) -> (r: (ServiceBudget, Option<String>))
    ensures
        r.0@.issued.len() == 0,
        r.0@.profiles.len() == 0,
        match setting {
            None => r.0@.budget_us is None && r.1 is None,
            Some(v) => match crate::text::parse_u64_spec(v@) {
                Some(ms) => if 0 < ms * 1000 <= u64::MAX {
                    r.0@.budget_us == Some((ms * 1000) as u64) && r.1 is None
                } else {
                    r.0@.budget_us is None && (r.1 matches Some(e) && e@ == setting_message())
                },
                None => r.0@.budget_us is None && (r.1 matches Some(e) && e@ == setting_message()),
            },
        },
{
    let off = ServiceBudget { budget_us: None, issued: Vec::new(), profiles: Vec::new() };
    match setting {
        None => (off, None),
        Some(value) => {
            let us = match crate::text::parse_u64(value) {
                Some(ms) => ms.checked_mul(1000),
                None => None,
            };
            match us {
                Some(us) if us > 0 => (ServiceBudget::new(us), None),
                _ => (
                    off,
                    Some("P4_STAGED_PREFILL_SERVICE_MS must be a positive non-overflowing integer".to_owned()),
                ),
            }
        },
    }
}

} // verus!
