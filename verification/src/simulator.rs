//! A deterministic pipeline that runs the real scheduler and checks what it
//! did.
//!
//! It drives the real `Scheduler` and the real `RequestState::phase_within`
//! through a virtual pipeline with no clock, no sockets and no llama.cpp, so
//! a run is a pure function of its inputs. What it adds is the bookkeeping
//! that a distributed pipeline needs and a single in-process scheduler gets
//! for free: which rows were issued, which came back, and whether the two
//! ever disagree.
//!
//! Deliberately not here: transport, credit accounting, timeouts,
//! cancellation and reconnection.
use crate::plan_laws::{drawn_from, drawn_from_some, law_plans_draw_from_demands};
use crate::proposal::ReadyRows;
use crate::request::{phase_within_spec, RequestState};
use crate::capacity::{lemma_planned_prefix, planned_rows};
use crate::scheduler::{Demand, Phase, PolicyState, Scheduler, SchedulerError};
use crate::text::{decimal, decimal_text};
use vstd::prelude::*;
use vstd::string::StringExecFns;

verus! {

broadcast use vstd::std_specs::hash::group_hash_axioms;

/// Violations a run collects before it gives up.
pub const VIOLATION_CAP: usize = 16;

/// How the virtual pipeline behaves. All of it is deterministic.
#[derive(Clone, Copy, Debug, PartialEq, Eq)]
pub struct PipelineShape {
    /// Stages a fragment passes before the tail settles it. The lap length.
    pub stages: usize,
    /// Rows one physical batch may carry.
    pub physical_capacity: usize,
    /// Rows one logical batch may carry.
    pub batch_capacity: usize,
    /// Fragments of one prompt allowed in flight. 1 is the shipped behaviour.
    pub prefill_fragments: u32,
    /// Whether the model forces equal per-sequence widths, as a recurrent or
    /// hybrid memory does.
    pub equal_sequence_ubatch: bool,
}

impl Default for PipelineShape {
    fn default() -> (r: Self)
        ensures
            r.stages == 4,
            r.physical_capacity == 64,
            r.batch_capacity == 512,
            r.prefill_fragments == 1,
            !r.equal_sequence_ubatch,
    {
        PipelineShape {
            stages: 4,
            physical_capacity: 64,
            batch_capacity: 512,
            prefill_fragments: 1,
            equal_sequence_ubatch: false,
        }
    }
}

/// One issued fragment, travelling.
#[derive(Clone, Debug, PartialEq, Eq)]
pub struct Fragment {
    pub id: u64,
    pub request: String,
    pub phase: Phase,
    pub rows: usize,
    /// Where the prompt rows came from, so overlaps and gaps are visible.
    pub token_range: Option<(usize, usize)>,
    /// Stages left before the tail settles it.
    pub remaining_stages: usize,
}

/// What one tick issued, for a golden trace.
#[derive(Clone, Debug, PartialEq, Eq)]
pub struct IssuedBatch {
    pub tick: usize,
    pub rows: Vec<(String, Phase, usize)>,
}

/// An invariant that did not hold, named so a failure says which.
#[derive(Clone, Debug, PartialEq, Eq)]
pub struct Violation {
    pub tick: usize,
    pub rule: &'static str,
    pub detail: String,
}

pub struct Simulation {
    shape: PipelineShape,
    scheduler: Scheduler,
    requests: Vec<(String, RequestState)>,
    in_flight: Vec<Fragment>,
    next_fragment: u64,
    issued_ids: Vec<u64>,
    /// Prompt ranges issued per request, in issue order.
    issued_ranges: Vec<(String, usize, usize)>,
    /// Every decode row issued, in order, as (request, input position).
    pub issued_decodes: Vec<(String, Option<u32>)>,
    /// Where each prompt is expected to resume, compared at issue time.
    expected_prompt: Vec<(String, usize)>,
    /// The position each request is expected to decode next.
    expected_decode: Vec<(String, u32)>,
    /// Fragment ids handed out, so a reuse is caught where it happens.
    seen_ids: std::collections::HashSet<u64>,
    /// Logical time, carried across calls to `run`.
    now: usize,
    /// Rows settled and issued so far, wide enough that no run can overflow them.
    settled_rows: u128,
    issued_rows: u128,
    pub trace: Vec<IssuedBatch>,
    pub violations: Vec<Violation>,
}

/// "`a``b`".
fn joined(a: &str, b: &str) -> (s: String)
    ensures
        s@ == a@ + b@,
{
    let mut s = a.to_owned();
    s.append(b);
    s
}

/// `n` in decimal.
fn number(n: usize) -> (s: String)
    ensures
        s@ == decimal(n as nat),
{
    decimal_text(n as u128)
}

/// "`a``n``b`".
fn with_number(a: &str, n: u128, b: &str) -> (s: String)
    ensures
        s@ == a@ + decimal(n as nat) + b@,
{
    let mut s = a.to_owned();
    s.append(decimal_text(n).as_str());
    s.append(b);
    s
}

/// `Some(n)` or `None`, as a debug rendering shows it.
fn optional_number(n: Option<u32>) -> (s: String)
    ensures
        s@ == match n {
            Some(v) => "Some("@ + decimal(v as nat) + ")"@,
            None => "None"@,
        },
{
    proof {
        reveal_strlit("Some(");
        reveal_strlit(")");
        reveal_strlit("None");
    }
    match n {
        Some(v) => {
            let mut s = "Some(".to_owned();
            s.append(decimal_text(v as u128).as_str());
            s.append(")");
            s
        },
        None => "None".to_owned(),
    }
}

/// The first request under `name`, if any.
fn find_request(requests: &Vec<(String, RequestState)>, name: &String) -> (r: Option<usize>)
    ensures
        r matches Some(j) ==> j < requests@.len() && requests@[j as int].0@ == name@,
        r is None ==> forall|k: int| 0 <= k < requests@.len() ==> (#[trigger] requests@[k]).0@ != name@,
{
    let mut j: usize = 0;
    while j < requests.len()
        invariant
            j <= requests@.len(),
            forall|k: int| 0 <= k < j ==> (#[trigger] requests@[k]).0@ != name@,
        decreases requests@.len() - j,
    {
        if requests[j].0 == *name {
            return Some(j);
        }
        j += 1;
    }
    None
}

/// The index of the first entry keyed `name`, at or after `k`.
pub open spec fn first_key_from<V>(t: Seq<(String, V)>, name: Seq<char>, k: int) -> Option<int>
    decreases t.len() - k,
{
    if k < 0 || k >= t.len() {
        None
    } else if t[k].0@ == name {
        Some(k)
    } else {
        first_key_from(t, name, k + 1)
    }
}

/// The value of the first entry keyed `name`.
pub open spec fn table_get<V>(t: Seq<(String, V)>, name: Seq<char>) -> Option<V> {
    match first_key_from(t, name, 0) {
        Some(i) => Some(t[i].1),
        None => None,
    }
}

proof fn lemma_first_key<V>(t: Seq<(String, V)>, name: Seq<char>, k: int)
    requires
        k >= 0,
    ensures
        first_key_from(t, name, k) matches Some(i) ==> k <= i < t.len() && t[i].0@ == name
            && forall|j: int| k <= j < i ==> (#[trigger] t[j]).0@ != name,
        first_key_from(t, name, k) is None ==> forall|j: int| k <= j < t.len() ==> (#[trigger] t[j]).0@ != name,
    decreases t.len() - k,
{
    if k < t.len() && t[k].0@ != name {
        lemma_first_key(t, name, k + 1);
    }
}

/// Where `first_key_from` lands is decided by the keys alone.
proof fn lemma_first_key_same_keys<V>(a: Seq<(String, V)>, b: Seq<(String, V)>, name: Seq<char>, k: int)
    requires
        k >= 0,
        a.len() == b.len(),
        forall|j: int| 0 <= j < a.len() ==> (#[trigger] a[j]).0@ == b[j].0@,
    ensures
        first_key_from(a, name, k) == first_key_from(b, name, k),
    decreases a.len() - k,
{
    if k < a.len() && a[k].0@ != name {
        lemma_first_key_same_keys(a, b, name, k + 1);
    }
}

/// Setting the value of a key's first entry changes what that key reads
/// and nothing else.
proof fn lemma_table_set<V>(t: Seq<(String, V)>, i: int, key: String, v: V, name: Seq<char>)
    requires
        0 <= i < t.len(),
        t[i].0@ == key@,
        first_key_from(t, key@, 0) == Some(i),
    ensures
        table_get(t.update(i, (key, v)), name) == if name == key@ {
            Some(v)
        } else {
            table_get(t, name)
        },
{
    let u = t.update(i, (key, v));
    lemma_first_key_same_keys(t, u, name, 0);
    lemma_first_key(t, name, 0);
    if name == key@ {
    } else {
        match first_key_from(t, name, 0) {
            Some(j) => {
                assert(j != i);
            },
            None => {},
        }
    }
}

/// Adding an entry for a key that has none makes it read the new value and
/// changes nothing else.
proof fn lemma_table_push<V>(t: Seq<(String, V)>, key: String, v: V, name: Seq<char>)
    requires
        first_key_from(t, key@, 0) is None,
    ensures
        table_get(t.push((key, v)), name) == if name == key@ {
            Some(v)
        } else {
            table_get(t, name)
        },
        first_key_from(t.push((key, v)), key@, 0) == Some(t.len() as int),
{
    let u = t.push((key, v));
    lemma_first_key(t, name, 0);
    lemma_first_key(u, name, 0);
    lemma_first_key(t, key@, 0);
    lemma_first_key(u, key@, 0);
    match first_key_from(u, name, 0) {
        Some(j) => {
            if j < t.len() {
                assert(u[j] == t[j]);
                match first_key_from(t, name, 0) {
                    Some(i) => {
                        if i < j {
                            assert(u[i] == t[i]);
                        }
                    },
                    None => {},
                }
            }
        },
        None => {
            assert(u[t.len() as int] == (key, v));
        },
    }
    match first_key_from(t, name, 0) {
        Some(i) => {
            assert(u[i] == t[i]);
        },
        None => {},
    }
    match first_key_from(u, key@, 0) {
        Some(j) => {
            if j < t.len() {
                assert(u[j] == t[j]);
            }
        },
        None => {
            assert(u[t.len() as int] == (key, v));
        },
    }
}

/// The slot for `key` in a first-match table, added with `default` when
/// there is none.
fn entry<V: Copy>(table: &mut Vec<(String, V)>, key: &String, default: V) -> (j: usize)
    ensures
        j < final(table)@.len(),
        final(table)@[j as int].0@ == key@,
        first_key_from(final(table)@, key@, 0) == Some(j as int),
        table_get(final(table)@, key@) == Some(
            match table_get(old(table)@, key@) {
                Some(v) => v,
                None => default,
            },
        ),
        forall|name: Seq<char>|
            name != key@ ==> #[trigger] table_get(final(table)@, name) == table_get(old(table)@, name),
        old(table)@.len() <= final(table)@.len() <= old(table)@.len() + 1,
        forall|k: int| 0 <= k < old(table)@.len() ==> #[trigger] final(table)@[k] == old(table)@[k],
        forall|k: int| old(table)@.len() <= k < final(table)@.len() ==> (#[trigger] final(table)@[k]).0@ == key@,
{
    let mut j: usize = 0;
    while j < table.len()
        invariant
            j <= table@.len(),
            first_key_from(table@, key@, 0) == first_key_from(table@, key@, j as int),
        decreases table@.len() - j,
    {
        if table[j].0 == *key {
            return j;
        }
        j += 1;
    }
    let ghost before = table@;
    let owned = key.clone();
    proof {
        assert(first_key_from(before, key@, 0) is None);
        assert forall|name: Seq<char>| name != key@ implies #[trigger] table_get(before.push((owned, default)), name)
            == table_get(before, name) by {
            lemma_table_push(before, owned, default, name);
        }
        lemma_table_push(before, owned, default, key@);
    }
    table.push((owned, default));
    table.len() - 1
}

/// The position of the row a request feeds next. The prompt occupies
/// `0 .. prompt`, so the token the prefill produced sits at `prompt` and is
/// the first decode input; each settled decode advances by exactly one.
fn next_input_position(request: &RequestState) -> (p: u32)
    ensures
        request.tokens@.len() + request.generated >= 1 && request.tokens@.len() + request.generated
            <= u32::MAX ==> p == request.tokens@.len() + request.generated - 1,
{
    let prompt = request.tokens.len() as u32;
    let after = prompt.wrapping_add(request.generated);
    let p = after.wrapping_sub(1);
    proof {
        let len = request.tokens@.len();
        if len + request.generated >= 1 && len + request.generated <= u32::MAX {
            assert(prompt == len);
            assert(after == len + request.generated);
        }
    }
    p
}

fn ready_decode(position: u32) -> (r: ReadyRows)
    ensures
        r.phase == Phase::Decode,
        r.tokens@ == seq![11i32],
        r.position == position,
        r.speculative_id == 0,
{
    let mut tokens: Vec<i32> = Vec::new();
    tokens.push(11);
    ReadyRows { phase: Phase::Decode, tokens, position, speculative_id: 0 }
}

/// Rows the fragments carry, in all.
pub open spec fn travelling_rows(fs: Seq<Fragment>) -> int
    decreases fs.len(),
{
    if fs.len() == 0 {
        0
    } else {
        travelling_rows(fs.drop_last()) + fs.last().rows
    }
}

/// Fragments of request `name` whose phase satisfies `wanted`.
pub open spec fn fragments_of(fs: Seq<Fragment>, name: Seq<char>, wanted: spec_fn(Phase) -> bool) -> int
    decreases fs.len(),
{
    if fs.len() == 0 {
        0
    } else {
        fragments_of(fs.drop_last(), name, wanted) + if fs.last().request@ == name && wanted(
            fs.last().phase,
        ) {
            1int
        } else {
            0int
        }
    }
}

pub open spec fn any_phase() -> spec_fn(Phase) -> bool {
    |p: Phase| true
}

pub open spec fn prefill_phase() -> spec_fn(Phase) -> bool {
    |p: Phase| p == Phase::Prefill
}

pub open spec fn decode_like_phase() -> spec_fn(Phase) -> bool {
    |p: Phase| p != Phase::Prefill
}

/// What every request must keep against the fragments in flight: the settled
/// cursor trails the issued one and neither passes the prompt; a decode has
/// at most one fragment out; the request's counter matches its fragments;
/// prompt fragments stay within the limit; and it never generates past its
/// limit.
pub open spec fn request_consistent(
    name: Seq<char>,
    r: RequestState,
    fs: Seq<Fragment>,
    limit: u32,
) -> bool {
    &&& r.prompt_cursor <= r.prompt_issued <= r.tokens@.len()
    &&& fragments_of(fs, name, decode_like_phase()) <= 1
    &&& r.outstanding == fragments_of(fs, name, any_phase())
    &&& fragments_of(fs, name, prefill_phase()) <= limit
    &&& r.generated <= r.max_tokens
}

/// Prompt rows of `name` travelling.
pub open spec fn prompt_rows_of(fs: Seq<Fragment>, name: Seq<char>) -> int
    decreases fs.len(),
{
    if fs.len() == 0 {
        0
    } else {
        prompt_rows_of(fs.drop_last(), name) + if fs.last().request@ == name && fs.last().phase
            == Phase::Prefill {
            fs.last().rows as int
        } else {
            0int
        }
    }
}

/// What one request has travelling: fragments in all, prompt fragments,
/// decode fragments, and the prompt rows they carry.
pub struct Travel {
    pub all: int,
    pub prefill: int,
    pub decodes: int,
    pub prompt_rows: int,
}

pub open spec fn travel_of(fs: Seq<Fragment>, name: Seq<char>) -> Travel {
    Travel {
        all: fragments_of(fs, name, any_phase()),
        prefill: fragments_of(fs, name, prefill_phase()),
        decodes: fragments_of(fs, name, decode_like_phase()),
        prompt_rows: prompt_rows_of(fs, name),
    }
}

/// What one fragment adds to its request's travel.
pub open spec fn contribution(f: Fragment, name: Seq<char>) -> Travel {
    if f.request@ == name {
        if f.phase == Phase::Prefill {
            Travel { all: 1, prefill: 1, decodes: 0, prompt_rows: f.rows as int }
        } else {
            Travel { all: 1, prefill: 0, decodes: 1, prompt_rows: 0 }
        }
    } else {
        Travel { all: 0, prefill: 0, decodes: 0, prompt_rows: 0 }
    }
}

pub open spec fn travel_add(a: Travel, b: Travel) -> Travel {
    Travel {
        all: a.all + b.all,
        prefill: a.prefill + b.prefill,
        decodes: a.decodes + b.decodes,
        prompt_rows: a.prompt_rows + b.prompt_rows,
    }
}

pub open spec fn travel_sub(a: Travel, b: Travel) -> Travel {
    Travel {
        all: a.all - b.all,
        prefill: a.prefill - b.prefill,
        decodes: a.decodes - b.decodes,
        prompt_rows: a.prompt_rows - b.prompt_rows,
    }
}

proof fn lemma_travel_push(fs: Seq<Fragment>, x: Fragment, name: Seq<char>)
    ensures
        travel_of(fs.push(x), name) == travel_add(travel_of(fs, name), contribution(x, name)),
        travelling_rows(fs.push(x)) == travelling_rows(fs) + x.rows,
{
    assert(fs.push(x).drop_last() =~= fs);
}

/// The travel over a prefix grows one fragment at a time.
proof fn lemma_travel_take(fs: Seq<Fragment>, q: int, name: Seq<char>)
    requires
        0 <= q < fs.len(),
    ensures
        travel_of(fs.take(q + 1), name) == travel_add(travel_of(fs.take(q), name), contribution(fs[q], name)),
        travelling_rows(fs.take(q + 1)) == travelling_rows(fs.take(q)) + fs[q].rows,
{
    assert(fs.take(q + 1) =~= fs.take(q).push(fs[q]));
    lemma_travel_push(fs.take(q), fs[q], name);
}

/// Travel counts are non-negative, split into prompt and decode fragments,
/// and no prompt rows travel without a prompt fragment.
proof fn lemma_travel_basic(fs: Seq<Fragment>, name: Seq<char>)
    ensures
        travel_of(fs, name).all == travel_of(fs, name).prefill + travel_of(fs, name).decodes,
        travel_of(fs, name).prefill >= 0,
        travel_of(fs, name).decodes >= 0,
        travel_of(fs, name).prompt_rows >= 0,
        travel_of(fs, name).prefill == 0 ==> travel_of(fs, name).prompt_rows == 0,
        travelling_rows(fs) >= 0,
    decreases fs.len(),
{
    if fs.len() > 0 {
        lemma_travel_basic(fs.drop_last(), name);
    }
}

/// What travels after a prefix is what the rest of the sequence adds.
proof fn lemma_travel_rest(fs: Seq<Fragment>, q: int, name: Seq<char>)
    requires
        0 <= q <= fs.len(),
    ensures
        travel_of(fs, name).all - travel_of(fs.take(q), name).all >= 0,
        travel_of(fs, name).prefill - travel_of(fs.take(q), name).prefill >= 0,
        travel_of(fs, name).decodes - travel_of(fs.take(q), name).decodes >= 0,
        travel_of(fs, name).prompt_rows - travel_of(fs.take(q), name).prompt_rows >= 0,
        travelling_rows(fs) - travelling_rows(fs.take(q)) >= 0,
    decreases fs.len() - q,
{
    if q < fs.len() {
        lemma_travel_rest(fs, q + 1, name);
        lemma_travel_take(fs, q, name);
    } else {
        assert(fs.take(q) =~= fs);
    }
}

/// The state one admitted request must keep against its travel `t`, given
/// the position `j` it was admitted at and what the issue tables hold for it.
pub open spec fn request_ok(
    name: Seq<char>,
    r: RequestState,
    j: int,
    t: Travel,
    limit: u32,
    ep: Option<usize>,
    ed: Option<u32>,
) -> bool {
    let len = r.tokens@.len();
    &&& name.len() > 0
    &&& r.sequence_id == Some(j as u32)
    &&& r.prompt_cursor <= r.prompt_issued <= len
    &&& t.prompt_rows == r.prompt_issued - r.prompt_cursor
    &&& r.outstanding == t.all
    &&& t.prefill <= limit
    &&& t.decodes <= 1
    &&& 1 <= r.max_tokens
    &&& len + r.max_tokens <= u32::MAX
    &&& r.generated <= r.max_tokens
    &&& r.prompt_cursor < len ==> r.generated == 0 && t.decodes == 0
    &&& t.decodes == 1 ==> r.generated < r.max_tokens && r.prompt_cursor == len && len > 0
    &&& r.ready matches Some(rr) ==> {
        &&& rr.phase == Phase::Decode
        &&& rr.tokens@.len() == 1
        &&& r.generated < r.max_tokens
        &&& len > 0
        &&& r.prompt_cursor == len ==> rr.position == len + r.generated - 1
    }
    &&& r.prompt_cursor == len && len > 0 ==> r.generated >= 1
    &&& ep matches Some(v) ==> v == r.prompt_issued
    &&& ep is None ==> r.prompt_issued == 0
    &&& ed matches Some(v) ==> r.generated >= 1 && v == len + r.generated - 1 + t.decodes
    &&& ed is None ==> r.generated <= 1 && t.decodes == 0
}

/// Some admitted request has this name.
pub open spec fn registered_name(rs: Seq<(String, RequestState)>, name: Seq<char>) -> bool {
    exists|j: int| 0 <= j < rs.len() && (#[trigger] rs[j]).0@ == name
}

/// A fragment as issue makes them: at least one row, a prompt or decode,
/// for an admitted request.
pub open spec fn fragment_ok(f: Fragment, rs: Seq<(String, RequestState)>) -> bool {
    &&& f.rows >= 1
    &&& f.phase == Phase::Prefill || f.phase == Phase::Decode
    &&& registered_name(rs, f.request@)
}

/// Admitted requests have distinct names.
pub open spec fn distinct_names(rs: Seq<(String, RequestState)>) -> bool {
    forall|i: int, j: int| 0 <= i < rs.len() && 0 <= j < rs.len() && i != j ==> (#[trigger] rs[i]).0@ != (#[trigger] rs[j]).0@
}

/// A fragment one stage further on.
pub open spec fn stepped(f: Fragment) -> Fragment {
    Fragment { remaining_stages: (f.remaining_stages - 1) as usize, ..f }
}

/// The fragments still travelling once every fragment of `fs` has moved one
/// stage, in order.
pub open spec fn moved_on(fs: Seq<Fragment>) -> Seq<Fragment>
    decreases fs.len(),
{
    if fs.len() == 0 {
        Seq::empty()
    } else if fs.last().remaining_stages > 1 {
        moved_on(fs.drop_last()).push(stepped(fs.last()))
    } else {
        moved_on(fs.drop_last())
    }
}

/// The fragments of `fs` that reach the tail when every fragment moves one
/// stage, in order.
pub open spec fn arriving(fs: Seq<Fragment>) -> Seq<Fragment>
    decreases fs.len(),
{
    if fs.len() == 0 {
        Seq::empty()
    } else if fs.last().remaining_stages > 1 {
        arriving(fs.drop_last())
    } else {
        arriving(fs.drop_last()).push(stepped(fs.last()))
    }
}

/// What settling fragments with travel `st` does to request `r`, giving
/// `n`: the prompt cursor moves over the settled prompt rows; each settled
/// decode, and the prompt if it completes now, produces a token; nothing
/// settled stays outstanding; and a request that settled anything is given
/// its next decode row, at the position of its last token, while it may
/// still generate.
pub open spec fn settled_request(r: RequestState, n: RequestState, st: Travel) -> bool {
    let len = r.tokens@.len();
    let cursor = r.prompt_cursor + st.prompt_rows;
    let generated = r.generated + st.decodes + if r.prompt_cursor < len && cursor == len {
        1int
    } else {
        0int
    };
    &&& n.request_id == r.request_id
    &&& n.tokens == r.tokens
    &&& n.max_tokens == r.max_tokens
    &&& n.sequence_id == r.sequence_id
    &&& n.prompt_issued == r.prompt_issued
    &&& n.prompt_cursor == cursor
    &&& n.outstanding == r.outstanding - st.all
    &&& n.generated == generated
    &&& st.all == 0 ==> n.ready == r.ready
    &&& st.all > 0 ==> match n.ready {
        None => generated >= r.max_tokens,
        Some(ready) => {
            &&& generated < r.max_tokens
            &&& ready.phase == Phase::Decode
            &&& ready.tokens@ == seq![11i32]
            &&& ready.position == len + generated - 1
            &&& ready.speculative_id == 0
        },
    }
}

/// What settling one fragment `f` does to request `r`, giving `n`.
pub open spec fn settle_step(r: RequestState, n: RequestState, f: Fragment) -> bool {
    let len = r.tokens@.len();
    let cursor = if f.phase == Phase::Prefill {
        r.prompt_cursor + f.rows
    } else {
        r.prompt_cursor as int
    };
    let generated = if f.phase == Phase::Prefill {
        if cursor == len {
            r.generated + 1
        } else {
            r.generated as int
        }
    } else {
        r.generated + 1
    };
    &&& n.request_id == r.request_id
    &&& n.tokens == r.tokens
    &&& n.max_tokens == r.max_tokens
    &&& n.sequence_id == r.sequence_id
    &&& n.prompt_issued == r.prompt_issued
    &&& n.prompt_cursor == cursor
    &&& n.outstanding == r.outstanding - 1
    &&& n.generated == generated
    &&& match n.ready {
        None => generated >= r.max_tokens,
        Some(ready) => {
            &&& generated < r.max_tokens
            &&& ready.phase == Phase::Decode
            &&& ready.tokens@ == seq![11i32]
            &&& ready.position == len + generated - 1
            &&& ready.speculative_id == 0
        },
    }
}

/// Settling one more fragment of a request extends what the fragments
/// settled so far did to it.
proof fn lemma_settle_step(r0: RequestState, cur: RequestState, n: RequestState, st: Travel, f: Fragment)
    requires
        settled_request(r0, cur, st),
        settle_step(cur, n, f),
        st.prompt_rows >= 0,
        st.decodes >= 0,
        st.all >= 0,
        f.rows >= 1,
        f.phase == Phase::Prefill ==> cur.prompt_cursor + f.rows <= cur.tokens@.len(),
    ensures
        settled_request(r0, n, travel_add(st, contribution(f, f.request@))),
{
}

/// What issuing fragments with travel `t` does to request `r`, giving `n`:
/// the prompt rows they carry count as issued and every fragment counts as
/// outstanding; nothing else changes.
pub open spec fn issued_request(r: RequestState, n: RequestState, t: Travel) -> bool {
    &&& n.request_id == r.request_id
    &&& n.tokens == r.tokens
    &&& n.max_tokens == r.max_tokens
    &&& n.sequence_id == r.sequence_id
    &&& n.prompt_cursor == r.prompt_cursor
    &&& n.prompt_issued == r.prompt_issued + t.prompt_rows
    &&& n.ready == r.ready
    &&& n.outstanding == r.outstanding + t.all
    &&& n.generated == r.generated
}

/// The fragments `new` carry the allocations `out`, in order: same request,
/// phase and rows, each a whole lap of `stages` from the tail.
pub open spec fn fragments_for(new: Seq<Fragment>, out: Seq<crate::scheduler::Allocation>, stages: usize) -> bool {
    &&& new.len() == out.len()
    &&& forall|k: int|
        0 <= k < new.len() ==> {
            &&& (#[trigger] new[k]).request == out[k].request_id
            &&& new[k].phase == out[k].phase
            &&& new[k].rows == out[k].rows
            &&& new[k].remaining_stages == stages
        }
}

/// The fragments `new` take consecutive ids from `first`.
pub open spec fn ids_from(new: Seq<Fragment>, first: int) -> bool {
    forall|k: int| 0 <= k < new.len() ==> (#[trigger] new[k]).id == first + k
}

/// A trace entry lists the fragments `new`: request, phase and rows each.
pub open spec fn batch_lists(b: IssuedBatch, new: Seq<Fragment>) -> bool {
    &&& b.rows@.len() == new.len()
    &&& forall|k: int| 0 <= k < new.len() ==> #[trigger] b.rows@[k] == (new[k].request, new[k].phase, new[k].rows)
}

/// The position of the row the first request named `name` has ready, as the
/// decode record shows it.
pub open spec fn ready_position(rs: Seq<(String, RequestState)>, name: Seq<char>) -> Option<u32> {
    match table_get(rs, name) {
        Some(r) => match r.ready {
            Some(ready) => Some(ready.position),
            None => None,
        },
        None => None,
    }
}

/// What the decode record gains when the fragments `new` are issued from
/// requests `rs`: for each decode fragment, in order, its request and the
/// position of the row that request had ready.
pub open spec fn decode_entries(new: Seq<Fragment>, rs: Seq<(String, RequestState)>) -> Seq<(String, Option<u32>)>
    decreases new.len(),
{
    if new.len() == 0 {
        Seq::empty()
    } else if new.last().phase == Phase::Prefill {
        decode_entries(new.drop_last(), rs)
    } else {
        decode_entries(new.drop_last(), rs).push((new.last().request, ready_position(rs, new.last().request@)))
    }
}

/// The rules a violation list names, in order.
pub open spec fn rules_of(vs: Seq<Violation>) -> Seq<Seq<char>> {
    vs.map_values(|v: Violation| v.rule@)
}

/// `rule` if `broken`, else nothing.
pub open spec fn finding(broken: bool, rule: Seq<char>) -> Seq<Seq<char>> {
    if broken {
        seq![rule]
    } else {
        Seq::empty()
    }
}

/// The rules request `r`, named `name`, breaks against the fragments `fs`
/// under `limit`, in the order they are tested.
pub open spec fn request_findings(name: Seq<char>, r: RequestState, fs: Seq<Fragment>, limit: u32) -> Seq<
    Seq<char>,
> {
    finding(r.prompt_cursor > r.prompt_issued || r.prompt_issued > r.tokens@.len(), "cursor <= issued <= prompt"@)
        + finding(fragments_of(fs, name, decode_like_phase()) > 1, "a decode has at most one fragment in flight"@)
        + finding(r.outstanding != fragments_of(fs, name, any_phase()), "outstanding counts the fragments in flight"@)
        + finding(fragments_of(fs, name, prefill_phase()) > limit, "prompt fragments in flight stay within the limit"@)
        + finding(r.generated > r.max_tokens, "generated never passes max_tokens"@)
}

/// The rules the first `j` requests break, request by request.
pub open spec fn findings_upto(rs: Seq<(String, RequestState)>, fs: Seq<Fragment>, limit: u32, j: int) -> Seq<
    Seq<char>,
>
    decreases j,
{
    if j <= 0 {
        Seq::empty()
    } else {
        findings_upto(rs, fs, limit, j - 1) + request_findings(rs[j - 1].0@, rs[j - 1].1, fs, limit)
    }
}

/// Two request lists with the same names, position by position.
pub open spec fn same_names(a: Seq<(String, RequestState)>, b: Seq<(String, RequestState)>) -> bool {
    &&& a.len() == b.len()
    &&& forall|j: int| 0 <= j < a.len() ==> (#[trigger] a[j]).0@ == b[j].0@
}

proof fn lemma_same_names(a: Seq<(String, RequestState)>, b: Seq<(String, RequestState)>)
    requires
        same_names(a, b),
    ensures
        forall|name: Seq<char>| #[trigger] registered_name(a, name) == registered_name(b, name),
        distinct_names(a) == distinct_names(b),
{
    assert forall|name: Seq<char>| #[trigger] registered_name(a, name) == registered_name(b, name) by {
        if registered_name(a, name) {
            let j = choose|j: int| 0 <= j < a.len() && (#[trigger] a[j]).0@ == name;
            assert(b[j].0@ == name);
        }
        if registered_name(b, name) {
            let j = choose|j: int| 0 <= j < b.len() && (#[trigger] b[j]).0@ == name;
            assert(a[j].0@ == name);
        }
    }
    if distinct_names(a) {
        assert forall|i: int, j: int| 0 <= i < b.len() && 0 <= j < b.len() && i != j implies (#[trigger] b[i]).0@
            != (#[trigger] b[j]).0@ by {
            assert(a[i].0@ != a[j].0@);
        }
    }
    if distinct_names(b) {
        assert forall|i: int, j: int| 0 <= i < a.len() && 0 <= j < a.len() && i != j implies (#[trigger] a[i]).0@
            != (#[trigger] a[j]).0@ by {
            assert(b[i].0@ != b[j].0@);
        }
    }
}

/// The demand `ready_demands` makes for request `j` of `rs` under `limit`.
pub open spec fn demand_of(d: Demand, rs: Seq<(String, RequestState)>, j: int, limit: u32) -> bool {
    &&& 0 <= j < rs.len()
    &&& phase_within_spec(rs[j].1, limit) == Some(d.phase)
    &&& d.request_id@ == rs[j].0@
    &&& d.sequence_id == match rs[j].1.sequence_id {
        Some(s) => s,
        None => 0u32,
    }
    &&& d.available_rows == if d.phase == Phase::Prefill {
        rs[j].1.tokens@.len() - rs[j].1.prompt_issued
    } else {
        match rs[j].1.ready {
            Some(ready) => ready.tokens@.len() as int,
            None => 0int,
        }
    }
    &&& d.available_rows > 0
    &&& !d.atomic
    &&& d.compatibility@ == "sim"@
}

/// The rows request `r` has ready for `phase`.
pub open spec fn available_rows_spec(r: RequestState, phase: Phase) -> int {
    if phase == Phase::Prefill {
        r.tokens@.len() - r.prompt_issued
    } else {
        match r.ready {
            Some(ready) => ready.tokens@.len() as int,
            None => 0int,
        }
    }
}

/// Request `r` may issue now under `limit`, and has rows to issue.
pub open spec fn demand_ready(r: RequestState, limit: u32) -> bool {
    match phase_within_spec(r, limit) {
        Some(phase) => available_rows_spec(r, phase) > 0,
        None => false,
    }
}

/// The positions of the requests that may issue now, in order.
pub open spec fn ready_indices(rs: Seq<(String, RequestState)>, limit: u32) -> Seq<int>
    decreases rs.len(),
{
    if rs.len() == 0 {
        Seq::empty()
    } else if demand_ready(rs.last().1, limit) {
        ready_indices(rs.drop_last(), limit).push(rs.len() - 1)
    } else {
        ready_indices(rs.drop_last(), limit)
    }
}

/// What the demands need of the requests to pass validation: a name, the
/// request's position as its sequence id, and a decode of one row.
pub open spec fn requests_plannable(rs: Seq<(String, RequestState)>) -> bool {
    &&& rs.len() <= u32::MAX
    &&& forall|j: int|
        0 <= j < rs.len() ==> {
            &&& (#[trigger] rs[j]).0@.len() > 0
            &&& rs[j].1.sequence_id == Some(j as u32)
            &&& rs[j].1.ready matches Some(ready) ==> ready.phase == Phase::Decode && ready.tokens@.len() == 1
        }
}

/// Demands made for plannable requests, one per request at most, pass
/// validation and hold nothing atomic.
proof fn lemma_ready_demands_valid(ds: Seq<Demand>, src: Seq<int>, rs: Seq<(String, RequestState)>, limit: u32)
    requires
        requests_plannable(rs),
        src.len() == ds.len(),
        forall|d: int| 0 <= d < ds.len() ==> demand_of(#[trigger] ds[d], rs, src[d], limit),
        forall|d: int, e: int| 0 <= d < e < ds.len() ==> #[trigger] src[d] < #[trigger] src[e],
    ensures
        crate::scheduler::demands_valid(ds),
        !crate::scheduler::has_atomic(ds),
        forall|d: int| 0 <= d < ds.len() ==> (#[trigger] ds[d]).sequence_id == src[d],
{
    reveal_strlit("sim");
    assert forall|d: int| 0 <= d < ds.len() implies (#[trigger] ds[d]).sequence_id == src[d] by {
        assert(demand_of(ds[d], rs, src[d], limit));
        assert(rs[src[d]].1.sequence_id == Some(src[d] as u32));
    }
    assert forall|i: int| 0 <= i < ds.len() implies crate::scheduler::demand_fault(ds, i) is None by {
        assert(demand_of(ds[i], rs, src[i], limit));
        assert(demand_of(ds[0], rs, src[0], limit));
        let r = rs[src[i]].1;
        assert(rs[src[i]].0@.len() > 0);
        if exists|j: int| 0 <= j < i && ds[j].sequence_id == ds[i].sequence_id {
            let j = choose|j: int| 0 <= j < i && ds[j].sequence_id == ds[i].sequence_id;
            assert(src[j] < src[i]);
            assert(ds[j].sequence_id == src[j]);
        }
        assert(r.prompt_issued < r.tokens@.len() ==> ds[i].phase == Phase::Prefill);
        assert(ds[i].phase != Phase::Prefill ==> ds[i].phase == Phase::Decode && ds[i].available_rows == 1);
    }
    assert forall|i: int| 0 <= i < ds.len() implies !(#[trigger] ds[i]).atomic by {
        assert(demand_of(ds[i], rs, src[i], limit));
    }
}

/// The allocations of one plan name distinct requests, so there are no
/// more of them than requests, and each comes from one demand.
proof fn lemma_allocations_bounded(
    ds: Seq<Demand>,
    src: Seq<int>,
    out: Seq<crate::scheduler::Allocation>,
    rs: Seq<(String, RequestState)>,
    limit: u32,
)
    requires
        requests_plannable(rs),
        src.len() == ds.len(),
        forall|d: int| 0 <= d < ds.len() ==> demand_of(#[trigger] ds[d], rs, src[d], limit),
        forall|d: int| 0 <= d < ds.len() ==> (#[trigger] ds[d]).sequence_id == src[d],
        crate::plan_laws::drawn_from_demands(ds, out),
    ensures
        out.len() <= rs.len(),
        forall|k: int| 0 <= k < out.len() ==> (#[trigger] out[k]).sequence_id < rs.len(),
{
    assert forall|k: int| 0 <= k < out.len() implies (#[trigger] out[k]).sequence_id < rs.len() by {
        assert(drawn_from_some(ds, out[k]));
        let d = choose|d: int| 0 <= d < ds.len() && drawn_from(out[k], #[trigger] ds[d]);
        assert(demand_of(ds[d], rs, src[d], limit));
    }
    let cs = out.map_values(|a: crate::scheduler::Allocation| a.sequence_id as usize);
    assert forall|p: int| 0 <= p < cs.len() implies #[trigger] cs[p] < rs.len() as usize by {
        assert(out[p].sequence_id < rs.len());
    }
    assert forall|p: int, q: int| 0 <= p < q < cs.len() implies cs[p] != cs[q] by {
        assert(out[p].sequence_id != out[q].sequence_id);
    }
    crate::plan_equal::lemma_distinct_bound(cs, rs.len() as usize);
}

/// The allocation at `a` comes from a demand, whose source request sits at
/// the position the allocation's sequence id names.
proof fn lemma_allocation_source(
    ds: Seq<Demand>,
    src: Seq<int>,
    out: Seq<crate::scheduler::Allocation>,
    rs: Seq<(String, RequestState)>,
    limit: u32,
    a: int,
) -> (d: int)
    requires
        0 <= a < out.len(),
        src.len() == ds.len(),
        forall|e: int| 0 <= e < ds.len() ==> demand_of(#[trigger] ds[e], rs, src[e], limit),
        forall|e: int| 0 <= e < ds.len() ==> (#[trigger] ds[e]).sequence_id == src[e],
        crate::plan_laws::drawn_from_demands(ds, out),
    ensures
        0 <= d < ds.len(),
        drawn_from(out[a], ds[d]),
        src[d] == out[a].sequence_id,
        demand_of(ds[d], rs, out[a].sequence_id as int, limit),
{
    assert(drawn_from_some(ds, out[a]));
    let d = choose|d: int| 0 <= d < ds.len() && drawn_from(out[a], #[trigger] ds[d]);
    assert(demand_of(ds[d], rs, src[d], limit));
    d
}

/// No allocation before `a` went to sequence `j`.
pub open spec fn untouched(out: Seq<crate::scheduler::Allocation>, a: int, j: int) -> bool {
    forall|k: int| 0 <= k < a ==> (#[trigger] out[k]).sequence_id != j
}

/// Issuing one allocation as a fragment keeps a healthy simulation healthy:
/// the request it came from counts the fragment and, for a prompt, the rows
/// it carries; the table that request is checked against moves with it; and
/// nothing else changes but the fragment id.
proof fn lemma_issue_step(s0: Simulation, s1: Simulation, jj: int, r1: RequestState, f: Fragment)
    requires
        s0.healthy(),
        s1.well_formed(),
        s1.shape == s0.shape,
        s1.now == s0.now,
        s1.scheduler.accepted() <= s1.now,
        s1.settled_rows == s0.settled_rows,
        0 <= jj < s0.requests@.len(),
        s1.requests@ == s0.requests@.update(jj, (s0.requests@[jj].0, r1)),
        s1.in_flight@ == s0.in_flight@.push(f),
        s1.issued_rows == s0.issued_rows + f.rows,
        s1.next_fragment == s0.next_fragment + 1,
        s1.next_fragment - 1 <= s1.now * s1.requests@.len(),
        s1.seen_ids@ == s0.seen_ids@.insert(s0.next_fragment),
        f.request@ == s0.requests@[jj].0@,
        f.rows >= 1,
        phase_within_spec(s0.requests@[jj].1, s0.shape.prefill_fragments) == Some(f.phase),
        f.phase == Phase::Prefill ==> {
            &&& f.rows <= s0.requests@[jj].1.tokens@.len() - s0.requests@[jj].1.prompt_issued
            &&& r1 == RequestState {
                prompt_issued: (s0.requests@[jj].1.prompt_issued + f.rows) as usize,
                outstanding: (s0.requests@[jj].1.outstanding + 1) as u32,
                ..s0.requests@[jj].1
            }
            &&& s1.expected_decode == s0.expected_decode
            &&& forall|m: Seq<char>|
                #[trigger] table_get(s1.expected_prompt@, m) == if m == f.request@ {
                    Some(r1.prompt_issued)
                } else {
                    table_get(s0.expected_prompt@, m)
                }
            &&& forall|k: int|
                0 <= k < s1.expected_prompt@.len() ==> registered_name(
                    s0.requests@,
                    (#[trigger] s1.expected_prompt@[k]).0@,
                )
        },
        f.phase != Phase::Prefill ==> {
            &&& r1 == RequestState {
                outstanding: (s0.requests@[jj].1.outstanding + 1) as u32,
                ..s0.requests@[jj].1
            }
            &&& s1.expected_prompt == s0.expected_prompt
            &&& forall|m: Seq<char>|
                #[trigger] table_get(s1.expected_decode@, m) == if m == f.request@ {
                    Some((s0.requests@[jj].1.tokens@.len() + s0.requests@[jj].1.generated) as u32)
                } else {
                    table_get(s0.expected_decode@, m)
                }
            &&& forall|k: int|
                0 <= k < s1.expected_decode@.len() ==> registered_name(
                    s0.requests@,
                    (#[trigger] s1.expected_decode@[k]).0@,
                )
        },
    ensures
        s1.healthy(),
{
    let rs0 = s0.requests@;
    let rs1 = s1.requests@;
    let fs0 = s0.in_flight@;
    let fs1 = s1.in_flight@;
    let limit = s0.shape.prefill_fragments;
    let name = rs0[jj].0@;
    let r0 = rs0[jj].1;
    assert(same_names(rs1, rs0)) by {
        assert forall|j: int| 0 <= j < rs1.len() implies (#[trigger] rs1[j]).0@ == rs0[j].0@ by {
            if j != jj {
                assert(rs1[j] == rs0[j]);
            }
        }
    }
    lemma_same_names(rs1, rs0);
    lemma_travel_push(fs0, f, Seq::empty());
    assert(request_ok(name, r0, jj, travel_of(fs0, name), limit,
        table_get(s0.expected_prompt@, name), table_get(s0.expected_decode@, name)));
    assert(r0.ready matches Some(ready) ==> ready.phase == Phase::Decode);
    assert forall|j: int| 0 <= j < rs1.len() implies request_ok(
        (#[trigger] rs1[j]).0@,
        rs1[j].1,
        j,
        travel_of(fs1, rs1[j].0@),
        s1.shape.prefill_fragments,
        table_get(s1.expected_prompt@, rs1[j].0@),
        table_get(s1.expected_decode@, rs1[j].0@),
    ) by {
        let m = rs1[j].0@;
        lemma_travel_push(fs0, f, m);
        if j == jj {
            lemma_travel_basic(fs0, name);
            assert(rs1[j].1 == r1);
        } else {
            assert(rs1[j] == rs0[j]);
            assert(m != name);
            assert(request_ok(m, rs0[j].1, j, travel_of(fs0, m), limit,
                table_get(s0.expected_prompt@, m), table_get(s0.expected_decode@, m)));
        }
    }
    assert forall|k: int| 0 <= k < fs1.len() implies fragment_ok(#[trigger] fs1[k], rs1) by {
        if k < fs0.len() {
            assert(fs1[k] == fs0[k]);
            assert(fragment_ok(fs0[k], rs0));
        } else {
            assert(fs1[k] == f);
            assert(rs1[jj].0@ == name);
        }
    }
    assert forall|k: int| 0 <= k < s1.expected_prompt@.len() implies registered_name(
        rs1,
        (#[trigger] s1.expected_prompt@[k]).0@,
    ) by {
        if f.phase != Phase::Prefill {
            assert(registered_name(rs0, s0.expected_prompt@[k].0@));
        } else {
            assert(registered_name(rs0, s1.expected_prompt@[k].0@));
        }
    }
    assert forall|k: int| 0 <= k < s1.expected_decode@.len() implies registered_name(
        rs1,
        (#[trigger] s1.expected_decode@[k]).0@,
    ) by {
        if f.phase == Phase::Prefill {
            assert(registered_name(rs0, s0.expected_decode@[k].0@));
        } else {
            assert(registered_name(rs0, s1.expected_decode@[k].0@));
        }
    }
    assert forall|x: u64| s1.seen_ids@.contains(x) implies x < s1.next_fragment by {
        if x != s0.next_fragment {
            assert(s0.seen_ids@.contains(x));
        }
    }
}

/// A healthy simulation passes every check.
proof fn lemma_healthy_consistent(s: Simulation)
    requires
        s.healthy(),
    ensures
        s.invariants_hold(),
{
    let rs = s.requests@;
    let fs = s.in_flight@;
    assert forall|j: int| 0 <= j < rs.len() implies request_consistent(
        (#[trigger] rs[j]).0@,
        rs[j].1,
        fs,
        s.shape.prefill_fragments,
    ) by {
        assert(request_ok(rs[j].0@, rs[j].1, j, travel_of(fs, rs[j].0@), s.shape.prefill_fragments,
            table_get(s.expected_prompt@, rs[j].0@), table_get(s.expected_decode@, rs[j].0@)));
    }
}

/// Nothing travels for a name no fragment carries.
proof fn lemma_travel_absent(fs: Seq<Fragment>, name: Seq<char>)
    requires
        forall|k: int| 0 <= k < fs.len() ==> (#[trigger] fs[k]).request@ != name,
    ensures
        travel_of(fs, name) == (Travel { all: 0, prefill: 0, decodes: 0, prompt_rows: 0 }),
    decreases fs.len(),
{
    if fs.len() > 0 {
        assert(fs.last() == fs[fs.len() - 1]);
        lemma_travel_absent(fs.drop_last(), name);
    }
}

/// A table whose keys are all registered reads nothing for a name that is not.
proof fn lemma_table_absent<V>(t: Seq<(String, V)>, rs: Seq<(String, RequestState)>, name: Seq<char>)
    requires
        forall|k: int| 0 <= k < t.len() ==> registered_name(rs, (#[trigger] t[k]).0@),
        !registered_name(rs, name),
    ensures
        table_get(t, name) is None,
{
    lemma_first_key(t, name, 0);
    if let Some(i) = first_key_from(t, name, 0) {
        assert(registered_name(rs, t[i].0@));
    }
}

/// Admitting a request under a fresh, non-empty name, with a first token to
/// generate and room for all of them, keeps a healthy simulation healthy.
proof fn lemma_admit_keeps_healthy(s0: Simulation, s1: Simulation, name: Seq<char>)
    requires
        s0.healthy(),
        s1.well_formed(),
        s1.shape == s0.shape,
        s1.now == s0.now,
        s1.scheduler == s0.scheduler,
        s1.in_flight == s0.in_flight,
        s1.expected_prompt == s0.expected_prompt,
        s1.expected_decode == s0.expected_decode,
        s1.next_fragment == s0.next_fragment,
        s1.seen_ids == s0.seen_ids,
        s1.settled_rows == s0.settled_rows,
        s1.issued_rows == s0.issued_rows,
        s0.requests@.len() < u32::MAX,
        s1.requests@.len() == s0.requests@.len() + 1,
        forall|j: int| 0 <= j < s0.requests@.len() ==> s1.requests@[j] == s0.requests@[j],
        forall|j: int| 0 <= j < s0.requests@.len() ==> (#[trigger] s0.requests@[j]).0@ != name,
        name.len() > 0,
        s1.requests@.last().0@ == name,
        ({
            let r = s1.requests@.last().1;
            &&& r.sequence_id == Some(s0.requests@.len() as u32)
            &&& r.prompt_cursor == 0 && r.prompt_issued == 0
            &&& r.ready is None && r.outstanding == 0 && r.generated == 0
            &&& 1 <= r.max_tokens
            &&& r.tokens@.len() + r.max_tokens <= u32::MAX
        }),
    ensures
        s1.healthy(),
{
    let rs0 = s0.requests@;
    let rs1 = s1.requests@;
    let fs = s0.in_flight@;
    let n = rs0.len() as int;
    assert(rs1[n] == rs1.last());
    assert(!registered_name(rs0, name));
    assert forall|m: Seq<char>| registered_name(rs0, m) implies #[trigger] registered_name(rs1, m) by {
        let j = choose|j: int| 0 <= j < rs0.len() && (#[trigger] rs0[j]).0@ == m;
        assert(rs1[j] == rs0[j]);
    }
    assert forall|k: int| 0 <= k < fs.len() implies (#[trigger] fs[k]).request@ != name by {
        assert(fragment_ok(fs[k], rs0));
    }
    lemma_travel_absent(fs, name);
    lemma_table_absent(s0.expected_prompt@, rs0, name);
    lemma_table_absent(s0.expected_decode@, rs0, name);
    assert forall|i: int, j: int| 0 <= i < rs1.len() && 0 <= j < rs1.len() && i != j implies (#[trigger] rs1[i]).0@
        != (#[trigger] rs1[j]).0@ by {
        if i < n && j < n {
            assert(rs1[i] == rs0[i] && rs1[j] == rs0[j]);
        } else if i < n {
            assert(rs1[i] == rs0[i]);
        } else if j < n {
            assert(rs1[j] == rs0[j]);
        }
    }
    assert forall|j: int| 0 <= j < rs1.len() implies request_ok(
        (#[trigger] rs1[j]).0@,
        rs1[j].1,
        j,
        travel_of(fs, rs1[j].0@),
        s1.shape.prefill_fragments,
        table_get(s1.expected_prompt@, rs1[j].0@),
        table_get(s1.expected_decode@, rs1[j].0@),
    ) by {
        if j < n {
            assert(rs1[j] == rs0[j]);
            assert(request_ok(rs0[j].0@, rs0[j].1, j, travel_of(fs, rs0[j].0@), s0.shape.prefill_fragments,
                table_get(s0.expected_prompt@, rs0[j].0@), table_get(s0.expected_decode@, rs0[j].0@)));
        }
    }
    assert forall|k: int| 0 <= k < fs.len() implies fragment_ok(#[trigger] fs[k], rs1) by {
        assert(fragment_ok(fs[k], rs0));
    }
    assert forall|k: int| 0 <= k < s1.expected_prompt@.len() implies registered_name(
        rs1,
        (#[trigger] s1.expected_prompt@[k]).0@,
    ) by {
        assert(registered_name(rs0, s0.expected_prompt@[k].0@));
    }
    assert forall|k: int| 0 <= k < s1.expected_decode@.len() implies registered_name(
        rs1,
        (#[trigger] s1.expected_decode@[k]).0@,
    ) by {
        assert(registered_name(rs0, s0.expected_decode@[k].0@));
    }
    let now = s0.now as int;
    let nf = s0.next_fragment as int;
    assert(nf - 1 <= now * (n + 1)) by (nonlinear_arith)
        requires
            nf - 1 <= now * n,
            now >= 0,
    ;
}

/// `s1` is `s0` after the scheduler planned `out` from the demands `ds` of
/// the requests that may issue, and the plan went into the pipeline.
spec fn planned_from(
    s0: Simulation,
    s1: Simulation,
    ds: Seq<Demand>,
    out: Seq<crate::scheduler::Allocation>,
) -> bool {
    &&& ds.len() == ready_indices(s0.requests@, s0.shape.prefill_fragments).len()
    &&& forall|d: int|
        0 <= d < ds.len() ==> demand_of(
            #[trigger] ds[d],
            s0.requests@,
            ready_indices(s0.requests@, s0.shape.prefill_fragments)[d],
            s0.shape.prefill_fragments,
        )
    &&& crate::scheduler::plan_outcome(
        s0.scheduler.policy(),
        s0.scheduler.accepted(),
        ds,
        s0.shape.batch_capacity,
        s0.shape.physical_capacity,
        s0.shape.equal_sequence_ubatch,
        16,
        false,
        crate::scheduler::OrdinaryLimits { prefill_rows: 0, prefill_members: 0, decode_members: 0 },
        Ok((out, s1.scheduler.policy())),
    )
    &&& s1.scheduler.accepted() == s0.scheduler.accepted() + 1
    &&& fragments_for(s1.in_flight@.skip(s0.in_flight@.len() as int), out, s0.shape.stages)
}

/// `s1` is `s0` after the scheduler refused to plan the demands `ds` of the
/// requests that may issue: planning them is an error, nothing went into the
/// pipeline, the fairness state is as it was, and the refusal is recorded.
spec fn refused_from(s0: Simulation, s1: Simulation, ds: Seq<Demand>) -> bool {
    &&& ds.len() == ready_indices(s0.requests@, s0.shape.prefill_fragments).len()
    &&& forall|d: int|
        0 <= d < ds.len() ==> demand_of(
            #[trigger] ds[d],
            s0.requests@,
            ready_indices(s0.requests@, s0.shape.prefill_fragments)[d],
            s0.shape.prefill_fragments,
        )
    &&& exists|e: SchedulerError|
        #[trigger] crate::scheduler::plan_outcome(
            s0.scheduler.policy(),
            s0.scheduler.accepted(),
            ds,
            s0.shape.batch_capacity,
            s0.shape.physical_capacity,
            s0.shape.equal_sequence_ubatch,
            16,
            false,
            crate::scheduler::OrdinaryLimits { prefill_rows: 0, prefill_members: 0, decode_members: 0 },
            Err::<(Seq<crate::scheduler::Allocation>, PolicyState), SchedulerError>(e),
        )
    &&& s1.in_flight@ == s0.in_flight@
    &&& s1.scheduler.policy() == s0.scheduler.policy()
    &&& s1.scheduler.accepted() == s0.scheduler.accepted()
    &&& s1.violations@.len() == s0.violations@.len() + 1
    &&& s1.violations@.last().rule@ == "the scheduler plans whatever is ready"@
}

/// The rules `check` finds broken in `s`, in the order it reports them: the
/// row balance first, then each request's rules in admission order.
spec fn check_findings(s: Simulation) -> Seq<Seq<char>> {
    finding(s.issued_rows != s.settled_rows + travelling_rows(s.in_flight@), "issued = settled + travelling"@)
        + findings_upto(s.requests@, s.in_flight@, s.shape.prefill_fragments, s.requests@.len() as int)
}

/// What one `advance` at `tick` does: every fragment moves one stage and
/// the ones reaching the tail settle.
#[verifier::opaque]
spec fn advance_post(s0: Simulation, s1: Simulation, tick: usize) -> bool {
    &&& (s1.well_formed())
    &&& (s1.now == s0.now)
    &&& (s1.shape == s0.shape)
    &&& (s1.scheduler == s0.scheduler)
    &&& (s1.next_fragment == s0.next_fragment)
    &&& (s1.seen_ids == s0.seen_ids)
    &&& (s1.expected_prompt == s0.expected_prompt)
    &&& (s1.expected_decode == s0.expected_decode)
    &&& (s1.issued_rows == s0.issued_rows)
    &&& (s1.requests@.len() == s0.requests@.len())
    &&& (forall|j: int|
                0 <= j < s0.requests@.len() ==> (#[trigger] s1.requests@[j]).0 == s0.requests@[j].0)
    &&& (s0.violations@.len() <= s1.violations@.len())
    &&& (s0.healthy() ==> s1.healthy() && s1.violations == s0.violations)
    &&& (s1.in_flight@ =~= moved_on(s0.in_flight@))
    &&& (s0.healthy() ==> s1.settled_rows == s0.settled_rows + travelling_rows(arriving(s0.in_flight@)))
    &&& s1.trace == s0.trace
    &&& s1.issued_decodes == s0.issued_decodes
    &&& (s0.healthy() ==> forall|j: int|
                0 <= j < s0.requests@.len() ==> settled_request(
                    s0.requests@[j].1,
                    #[trigger] s1.requests@[j].1,
                    travel_of(arriving(s0.in_flight@), s0.requests@[j].0@),
                ))
}

/// What one `issue` at `tick` does: the requests that may issue are planned
/// and the plan goes into the pipeline.
#[verifier::opaque]
spec fn issue_post(s0: Simulation, s1: Simulation, tick: usize) -> bool {
    let ready = ready_indices(s0.requests@, s0.shape.prefill_fragments);
    let new = s1.in_flight@.skip(s0.in_flight@.len() as int);
    &&& s1.well_formed()
    &&& s1.now == s0.now
    &&& s1.shape == s0.shape
    &&& s1.settled_rows == s0.settled_rows
    &&& s1.requests@.len() == s0.requests@.len()
    &&& forall|j: int| 0 <= j < s0.requests@.len() ==> (#[trigger] s1.requests@[j]).0 == s0.requests@[j].0
    &&& s0.violations@.len() <= s1.violations@.len()
    &&& issue_guard(s0) ==> s1.healthy() && s1.violations@ =~= s0.violations@
    &&& ready.len() == 0 ==> s1 == s0
    &&& ready.len() > 0 ==> (exists|ds: Seq<Demand>, out: Seq<crate::scheduler::Allocation>|
        planned_from(s0, s1, ds, out)) || (exists|ds: Seq<Demand>| refused_from(s0, s1, ds))
    &&& s0.in_flight@.len() <= s1.in_flight@.len()
    &&& s1.in_flight@.take(s0.in_flight@.len() as int) =~= s0.in_flight@
    &&& new.len() == 0 ==> s1.trace == s0.trace
    &&& new.len() > 0 ==> s1.trace@ =~= s0.trace@.push(s1.trace@.last()) && s1.trace@.last().tick == tick
        && batch_lists(s1.trace@.last(), new)
    &&& issue_guard(s0) ==> {
        &&& s1.next_fragment == s0.next_fragment + new.len()
        &&& ids_from(new, s0.next_fragment as int)
        &&& s1.issued_decodes@ =~= s0.issued_decodes@ + decode_entries(new, s0.requests@)
        &&& forall|j: int|
            0 <= j < s0.requests@.len() ==> issued_request(
                s0.requests@[j].1,
                #[trigger] s1.requests@[j].1,
                travel_of(new, s0.requests@[j].0@),
            )
    }
}

/// `issue` may rely on the simulation being healthy, on a plan being
/// accepted this tick, and on fragment ids fitting for the tick.
spec fn issue_guard(s0: Simulation) -> bool {
    &&& s0.healthy()
    &&& s0.scheduler.accepted() < s0.now
    &&& s0.next_fragment - 1 <= (s0.now - 1) * s0.requests@.len()
    &&& s0.now * s0.requests@.len() + 2 <= u64::MAX
}

/// What one `check` at `tick` does: it records a violation for each rule
/// that fails and changes nothing else.
#[verifier::opaque]
spec fn check_post(s0: Simulation, s1: Simulation, tick: usize) -> bool {
    &&& (s1.well_formed())
    &&& (s1.now == s0.now)
    &&& (s1.shape == s0.shape)
    &&& (s1.requests == s0.requests)
    &&& (s1.in_flight == s0.in_flight)
    &&& (s0.violations@.len() <= s1.violations@.len())
    &&& (s1.violations@.len() == s0.violations@.len() <==> s0.invariants_hold())
    &&& (s0.invariants_hold() ==> s1.violations@ =~= s0.violations@)
    &&& (s0.healthy() ==> s1.healthy())
    &&& s1 == (Simulation { violations: s1.violations, ..s0 })
    &&& s1.violations@.take(s0.violations@.len() as int) =~= s0.violations@
    &&& forall|k: int| s0.violations@.len() <= k < s1.violations@.len() ==> (#[trigger] s1.violations@[k]).tick == tick
    &&& rules_of(s1.violations@.skip(s0.violations@.len() as int)) =~= check_findings(s0)
}

/// `s0` with its clock at the end of `tick`.
spec fn clocked(s0: Simulation, tick: usize) -> Simulation {
    Simulation { now: (tick + 1) as usize, ..s0 }
}

/// One tick of a run at `tick`: the clock moves to the tick's end, then the
/// fragments advance and settle, then what is ready is planned and issued,
/// then every rule is checked.
pub closed spec fn tick_step(s0: Simulation, s1: Simulation, tick: usize) -> bool {
    exists|a: Simulation, b: Simulation|
        #![trigger advance_post(clocked(s0, tick), a, tick), issue_post(a, b, tick)]
        advance_post(clocked(s0, tick), a, tick) && issue_post(a, b, tick) && check_post(b, s1, tick)
}

/// A run stops after a tick that leaves the violation cap reached or every
/// request finished.
pub closed spec fn stops(s: Simulation) -> bool {
    s.violations@.len() >= VIOLATION_CAP || s.is_finished()
}

/// `steps` are the states of a run from `s0` that used `used` ticks: each
/// follows the one before by one tick, counted on from `s0`'s clock, and no
/// state before the last stopped the run.
pub closed spec fn run_of(s0: Simulation, steps: Seq<Simulation>, used: int) -> bool {
    &&& steps.len() == used + 1
    &&& steps[0] == s0
    &&& forall|i: int|
        0 <= i < used ==> tick_step(#[trigger] steps[i], steps[i + 1], (s0.now + i) as usize)
    &&& forall|i: int| 1 <= i < used ==> !stops(#[trigger] steps[i])
}

/// The three steps of a tick make a tick.
proof fn lemma_tick(s0: Simulation, a: Simulation, b: Simulation, s1: Simulation, tick: usize)
    requires
        advance_post(clocked(s0, tick), a, tick),
        issue_post(a, b, tick),
        check_post(b, s1, tick),
    ensures
        tick_step(s0, s1, tick),
{
}

/// A run that has not stopped extends by one more tick.
proof fn lemma_extend_run(s0: Simulation, steps: Seq<Simulation>, used: int, s1: Simulation, tick: usize)
    requires
        used >= 0,
        run_of(s0, steps, used),
        used >= 1 ==> !stops(steps.last()),
        tick_step(steps.last(), s1, tick),
        tick == s0.now + used,
    ensures
        run_of(s0, steps.push(s1), used + 1),
{
    let next = steps.push(s1);
    assert(next[0] == steps[0]);
    assert forall|i: int| 0 <= i < used + 1 implies tick_step(#[trigger] next[i], next[i + 1], (s0.now + i) as usize) by {
        if i < used {
            assert(next[i] == steps[i] && next[i + 1] == steps[i + 1]);
        } else {
            assert(next[i] == steps.last());
        }
    }
    assert forall|i: int| 1 <= i < used + 1 implies !stops(#[trigger] next[i]) by {
        assert(next[i] == steps[i]);
    }
}

/// A tick ends at the tick's end on the clock.
proof fn lemma_tick_clock(s0: Simulation, s1: Simulation, tick: usize)
    requires
        tick_step(s0, s1, tick),
        tick < usize::MAX,
    ensures
        s1.now == tick + 1,
{
    let (a, b) = choose|a: Simulation, b: Simulation|
        advance_post(clocked(s0, tick), a, tick) && issue_post(a, b, tick) && check_post(b, s1, tick);
    reveal(advance_post);
    reveal(issue_post);
    reveal(check_post);
}

/// Along a run, the clock counts the ticks.
proof fn lemma_run_clock(s0: Simulation, steps: Seq<Simulation>, used: int)
    requires
        run_of(s0, steps, used),
        s0.now + used <= usize::MAX,
    ensures
        forall|i: int| 0 <= i <= used ==> (#[trigger] steps[i]).now == s0.now + i,
    decreases used,
{
    if used > 0 {
        let prior = steps.drop_last();
        assert forall|i: int| 0 <= i < used - 1 implies tick_step(#[trigger] prior[i], prior[i + 1], (s0.now + i) as usize) by {
            assert(prior[i] == steps[i] && prior[i + 1] == steps[i + 1]);
            assert(tick_step(steps[i], steps[i + 1], (s0.now + i) as usize));
        }
        assert forall|i: int| 1 <= i < used - 1 implies !stops(#[trigger] prior[i]) by {
            assert(prior[i] == steps[i]);
        }
        lemma_run_clock(s0, prior, used - 1);
        assert forall|i: int| 0 <= i <= used implies (#[trigger] steps[i]).now == s0.now + i by {
            if i < used {
                assert(prior[i] == steps[i]);
            } else {
                assert(tick_step(steps[used - 1], steps[used], (s0.now + used - 1) as usize));
                lemma_tick_clock(steps[used - 1], steps[used], (s0.now + used - 1) as usize);
                assert(steps[used - 1] == prior[used - 1]);
            }
        }
    }
}

/// Runs compose: a run of `a` ticks that did not stop, followed by a run of
/// `b` ticks from where it left off, is one run of `a + b` ticks, tick for
/// tick, with time carried across.
pub proof fn law_runs_compose(s0: Simulation, xs: Seq<Simulation>, a: int, ys: Seq<Simulation>, b: int)
    requires
        0 <= a,
        0 <= b,
        run_of(s0, xs, a),
        run_of(xs.last(), ys, b),
        a >= 1 ==> !stops(xs.last()),
        s0.clock() + a + b <= usize::MAX,
    ensures
        run_of(s0, xs + ys.skip(1), a + b),
        (xs + ys.skip(1)).last() == ys.last(),
{
    lemma_run_clock(s0, xs, a);
    let zs = xs + ys.skip(1);
    assert(xs.last() == xs[a]);
    assert(zs.len() == a + b + 1);
    assert forall|i: int| 0 <= i <= a + b implies #[trigger] zs[i] == if i <= a { xs[i] } else { ys[i - a] } by {}
    assert(ys[0] == xs.last());
    assert forall|i: int| 0 <= i < a + b implies tick_step(#[trigger] zs[i], zs[i + 1], (s0.now + i) as usize) by {
        if i < a {
            assert(zs[i] == xs[i] && zs[i + 1] == xs[i + 1]);
            assert(tick_step(xs[i], xs[i + 1], (s0.now + i) as usize));
        } else {
            let k = i - a;
            assert(zs[i] == ys[k]);
            assert(zs[i + 1] == ys[k + 1]);
            assert(tick_step(ys[k], ys[k + 1], (xs.last().now + k) as usize));
        }
    }
    assert forall|i: int| 1 <= i < a + b implies !stops(#[trigger] zs[i]) by {
        if i < a {
            assert(zs[i] == xs[i]);
        } else if i == a {
            assert(zs[i] == xs[a]);
        } else {
            assert(zs[i] == ys[i - a]);
        }
    }
    assert(zs.last() == zs[a + b]);
    if b > 0 {
        assert(ys.last() == ys[b]);
    }
}

impl Simulation {
    /// Every row issued is settled or travelling, and every request is
    /// consistent with the fragments in flight.
    pub closed spec fn invariants_hold(&self) -> bool {
        &&& self.issued_rows == self.settled_rows + travelling_rows(self.in_flight@)
        &&& forall|j: int|
            0 <= j < self.requests@.len() ==> request_consistent(
                (#[trigger] self.requests@[j]).0@,
                self.requests@[j].1,
                self.in_flight@,
                self.shape.prefill_fragments,
            )
    }

    /// A healthy simulation: every invariant `check` looks at holds, and so
    /// does the bookkeeping that keeps them holding from one tick to the
    /// next — each request's state against what it has travelling, the
    /// issue tables, distinct names, fresh fragment ids and room to plan.
    pub closed spec fn healthy(&self) -> bool {
        let rs = self.requests@;
        let fs = self.in_flight@;
        &&& self.well_formed()
        &&& self.shape.batch_capacity >= 1
        &&& self.shape.physical_capacity >= 1
        &&& rs.len() <= u32::MAX
        &&& distinct_names(rs)
        &&& forall|j: int|
            0 <= j < rs.len() ==> request_ok(
                (#[trigger] rs[j]).0@,
                rs[j].1,
                j,
                travel_of(fs, rs[j].0@),
                self.shape.prefill_fragments,
                table_get(self.expected_prompt@, rs[j].0@),
                table_get(self.expected_decode@, rs[j].0@),
            )
        &&& forall|k: int| 0 <= k < fs.len() ==> fragment_ok(#[trigger] fs[k], rs)
        &&& forall|k: int|
            0 <= k < self.expected_prompt@.len() ==> registered_name(rs, (#[trigger] self.expected_prompt@[k]).0@)
        &&& forall|k: int|
            0 <= k < self.expected_decode@.len() ==> registered_name(rs, (#[trigger] self.expected_decode@[k]).0@)
        &&& self.issued_rows == self.settled_rows + travelling_rows(fs)
        &&& 1 <= self.next_fragment
        &&& self.next_fragment - 1 <= self.now * rs.len()
        &&& forall|x: u64| #[trigger] self.seen_ids@.contains(x) ==> x < self.next_fragment
        &&& self.scheduler.accepted() <= self.now
    }

    /// The simulation is in a state its steps can run from.
    pub closed spec fn well_formed(&self) -> bool {
        &&& self.settled_rows + travelling_rows(self.in_flight@) <= self.issued_rows
        &&& self.issued_rows <= self.scheduler.accepted() * (usize::MAX as int)
        &&& self.shape.stages >= 1
        &&& forall|k: int|
            0 <= k < self.in_flight@.len() ==> (#[trigger] self.in_flight@[k]).remaining_stages >= 1
        &&& forall|j: int|
            0 <= j < self.requests@.len() ==> {
                let r = (#[trigger] self.requests@[j]).1;
                &&& r.sequence_id is Some
                &&& r.ready matches Some(ready) ==> ready.phase == Phase::Decode
            }
    }

    /// Logical time so far.
    pub closed spec fn clock(&self) -> usize {
        self.now
    }

    /// The violations recorded so far.
    pub closed spec fn recorded(&self) -> Seq<Violation> {
        self.violations@
    }

    /// The batches issued so far.
    pub closed spec fn traced(&self) -> Seq<IssuedBatch> {
        self.trace@
    }

    /// The decode rows issued so far.
    pub closed spec fn decoded(&self) -> Seq<(String, Option<u32>)> {
        self.issued_decodes@
    }

    pub closed spec fn shape_of(&self) -> PipelineShape {
        self.shape
    }

    /// The admitted requests, by name, in admission order.
    pub closed spec fn admitted(&self) -> Seq<(Seq<char>, RequestState)> {
        self.requests@.map_values(|e: (String, RequestState)| (e.0@, e.1))
    }

    /// Nothing travels, every prompt is settled, and every request has
    /// generated all it asked for.
    pub closed spec fn is_finished(&self) -> bool {
        &&& self.in_flight@.len() == 0
        &&& forall|j: int|
            0 <= j < self.requests@.len() ==> {
                let r = (#[trigger] self.requests@[j]).1;
                r.prompt_cursor == r.tokens@.len() && r.generated >= r.max_tokens
            }
    }

    pub fn new(shape: PipelineShape) -> (r: Self)
        requires
            shape.stages >= 1,
        ensures
            r.well_formed(),
            r.shape_of() == shape,
            r.clock() == 0,
            r.admitted().len() == 0,
            r.traced().len() == 0,
            r.recorded().len() == 0,
            r.decoded().len() == 0,
            shape.batch_capacity >= 1 && shape.physical_capacity >= 1 ==> r.healthy(),
    {
        Simulation {
            shape,
            scheduler: Scheduler::new(),
            requests: Vec::new(),
            in_flight: Vec::new(),
            next_fragment: 1,
            issued_ids: Vec::new(),
            issued_ranges: Vec::new(),
            issued_decodes: Vec::new(),
            expected_prompt: Vec::new(),
            expected_decode: Vec::new(),
            seen_ids: std::collections::HashSet::new(),
            now: 0,
            settled_rows: 0,
            issued_rows: 0,
            trace: Vec::new(),
            violations: Vec::new(),
        }
    }

    /// Admits a request with `prompt` tokens that will generate `generate` of
    /// its own. Sequence ids are handed out in admission order. A healthy
    /// simulation stays healthy when the name is new and not empty and the
    /// request asks for at least one token.
    pub fn admit_request(&mut self, id: &str, prompt: usize, generate: u32)
        requires
            old(self).well_formed(),
        ensures
            final(self).well_formed(),
            final(self).clock() == old(self).clock(),
            final(self).shape_of() == old(self).shape_of(),
            final(self).admitted().len() == old(self).admitted().len() + 1,
            forall|j: int|
                0 <= j < old(self).admitted().len() ==> final(self).admitted()[j] == old(
                    self,
                ).admitted()[j],
            ({
                let (name, r) = final(self).admitted().last();
                &&& name == id@
                &&& r.request_id@ == id@
                &&& r.tokens@ == Seq::new(prompt as nat, |i: int| 7i32)
                &&& r.max_tokens == generate
                &&& r.sequence_id == Some(old(self).admitted().len() as u32)
                &&& r.prompt_cursor == 0 && r.prompt_issued == 0
                &&& r.ready is None && r.outstanding == 0 && r.generated == 0
            }),
            final(self).traced() == old(self).traced(),
            final(self).recorded() == old(self).recorded(),
            old(self).healthy() && id@.len() > 0 && (forall|j: int|
                0 <= j < old(self).admitted().len() ==> old(self).admitted()[j].0 != id@) && 1 <= generate
                && prompt + generate <= u32::MAX && old(self).admitted().len() < u32::MAX
                ==> final(self).healthy(),
    {
        let ghost h = old(self).healthy() && id@.len() > 0 && (forall|j: int|
            0 <= j < old(self).admitted().len() ==> old(self).admitted()[j].0 != id@) && 1 <= generate
            && prompt + generate <= u32::MAX && old(self).admitted().len() < u32::MAX;
        let sequence = self.requests.len() as u32;
        let mut tokens: Vec<i32> = Vec::new();
        while tokens.len() < prompt
            invariant
                tokens@.len() <= prompt,
                forall|k: int| 0 <= k < tokens@.len() ==> tokens@[k] == 7,
            decreases prompt - tokens@.len(),
        {
            tokens.push(7);
        }
        assert(tokens@ =~= Seq::new(prompt as nat, |i: int| 7i32));
        let state = RequestState::new(id.to_owned(), tokens, generate, Some(sequence));
        let ghost before = self.requests@;
        self.requests.push((id.to_owned(), state));
        proof {
            assert(self.requests@ == before.push(self.requests@.last()));
            assert(forall|j: int|
                0 <= j < before.len() ==> self.requests@[j] == before[j]);
            if h {
                assert forall|j: int| 0 <= j < before.len() implies (#[trigger] before[j]).0@ != id@ by {
                    assert(old(self).admitted()[j].0 == before[j].0@);
                }
                lemma_admit_keeps_healthy(*old(self), *self, id@);
            }
        }
    }

    /// Runs until every request has finished or `budget` ticks have passed,
    /// and returns the number of ticks used. Logical time is cumulative: a
    /// second call continues where the first stopped. A run stops early once
    /// it has collected `VIOLATION_CAP` violations, rather than re-deriving
    /// the same failure for the rest of its budget.
    ///
    /// The simulation it leaves is `used` ticks of `tick_step` on from where it
    /// started, one per tick on the clock: fragments advance and settle, what
    /// is ready is planned and issued (adding to the trace and the decode
    /// record), and every rule is checked. It stops after the first tick that
    /// reaches the violation cap or finishes every request, and only then.
    ///
    /// From a healthy simulation, a run whose fragment ids stay within `u64`
    /// records no violation and leaves the simulation healthy: the invariants
    /// `check` looks at hold after every tick, for every load and shape.
    pub fn run(&mut self, budget: usize) -> (used: usize)
        requires
            old(self).well_formed(),
            old(self).clock() + budget <= usize::MAX,
        ensures
            final(self).well_formed(),
            used <= budget,
            final(self).clock() == old(self).clock() + used,
            final(self).shape_of() == old(self).shape_of(),
            final(self).admitted().len() == old(self).admitted().len(),
            used < budget ==> final(self).recorded().len() >= VIOLATION_CAP
                || final(self).is_finished(),
            old(self).recorded().len() <= final(self).recorded().len(),
            old(self).healthy() && (old(self).clock() + budget) * old(self).admitted().len() + 2 <= u64::MAX
                ==> final(self).healthy() && final(self).recorded() == old(self).recorded(),
            exists|steps: Seq<Simulation>| #[trigger] run_of(*old(self), steps, used as int) && steps.last() == *final(self),
            used < budget ==> stops(*final(self)),
    {
        let ghost n = self.requests@.len() as int;
        let ghost mut steps: Seq<Simulation> = seq![*self];
        let start = self.now;
        let end = start + budget;
        let ghost h = old(self).healthy() && end * n + 2 <= u64::MAX;
        let mut tick = start;
        while tick < end
            invariant
                start <= tick <= end,
                start == old(self).now,
                end == start + budget,
                self.well_formed(),
                self.now == tick,
                self.shape == old(self).shape,
                self.requests@.len() == old(self).requests@.len(),
                n == self.requests@.len(),
                old(self).violations@.len() <= self.violations@.len(),
                h == (old(self).healthy() && end * n + 2 <= u64::MAX),
                h ==> self.healthy(),
                h ==> self.violations@ == old(self).violations@,
                run_of(*old(self), steps, tick - start),
                steps.last() == *self,
                tick > start ==> !stops(*self),
            decreases end - tick,
        {
            let ghost s0 = *self;
            proof {
                if h {
                    let t = tick as int;
                    assert((t + 1) * n <= end * n) by (nonlinear_arith)
                        requires
                            t + 1 <= end,
                            n >= 0,
                    ;
                    assert(t * n <= (t + 1) * n) by (nonlinear_arith)
                        requires
                            n >= 0,
                    ;
                }
            }
            self.now = tick + 1;
            proof {
                assert(*self == clocked(s0, tick));
            }
            self.advance(tick);
            let ghost a = *self;
            self.issue(tick);
            let ghost b = *self;
            self.check(tick);
            proof {
                lemma_tick(s0, a, b, *self, tick);
                lemma_extend_run(*old(self), steps, (tick - start) as int, *self, tick);
                steps = steps.push(*self);
            }
            if self.violations.len() >= VIOLATION_CAP {
                proof {
                    assert(stops(*self));
                }
                return tick + 1 - start;
            }
            if self.finished() {
                proof {
                    assert(stops(*self));
                }
                return tick + 1 - start;
            }
            proof {
                assert(!stops(*self));
            }
            tick += 1;
        }
        budget
    }

    fn finished(&self) -> (r: bool)
        ensures
            r == self.is_finished(),
    {
        if self.in_flight.len() != 0 {
            return false;
        }
        let mut j: usize = 0;
        while j < self.requests.len()
            invariant
                j <= self.requests@.len(),
                forall|k: int|
                    0 <= k < j ==> {
                        let r = (#[trigger] self.requests@[k]).1;
                        r.prompt_cursor == r.tokens@.len() && r.generated >= r.max_tokens
                    },
            decreases self.requests@.len() - j,
        {
            let request = &self.requests[j].1;
            if !(request.prompt_cursor == request.tokens.len() && request.generated >= request.max_tokens) {
                return false;
            }
            j += 1;
        }
        true
    }

    /// Moves every fragment one stage, and settles the ones that reach the tail.
    #[verifier::rlimit(40)]
    fn advance(&mut self, tick: usize)
        requires
            old(self).well_formed(),
        ensures
            (final(self).well_formed()),
            (final(self).now == old(self).now),
            (final(self).shape == old(self).shape),
            (final(self).scheduler == old(self).scheduler),
            (final(self).next_fragment == old(self).next_fragment),
            (final(self).seen_ids == old(self).seen_ids),
            (final(self).expected_prompt == old(self).expected_prompt),
            (final(self).expected_decode == old(self).expected_decode),
            (final(self).issued_rows == old(self).issued_rows),
            (final(self).requests@.len() == old(self).requests@.len()),
            (forall|j: int|
                        0 <= j < old(self).requests@.len() ==> (#[trigger] final(self).requests@[j]).0 == old(self).requests@[j].0),
            (old(self).violations@.len() <= final(self).violations@.len()),
            (old(self).healthy() ==> final(self).healthy() && final(self).violations == old(self).violations),
            (final(self).in_flight@ == moved_on(old(self).in_flight@)),
            (old(self).healthy() ==> final(self).settled_rows == old(self).settled_rows + travelling_rows(arriving(old(self).in_flight@))),
            final(self).trace == old(self).trace,
            final(self).issued_decodes == old(self).issued_decodes,
            (old(self).healthy() ==> forall|j: int|
                        0 <= j < old(self).requests@.len() ==> settled_request(
                            old(self).requests@[j].1,
                            #[trigger] final(self).requests@[j].1,
                            travel_of(arriving(old(self).in_flight@), old(self).requests@[j].0@),
                        )),
            advance_post(*old(self), *final(self), tick),
    {
        let ghost h = old(self).healthy();
        let ghost orig = self.in_flight@;
        let ghost rs = self.requests@;
        let ghost limit = self.shape.prefill_fragments;
        let mut pending: Vec<Fragment> = Vec::new();
        std::mem::swap(&mut pending, &mut self.in_flight);
        let mut arrived: Vec<Fragment> = Vec::new();
        let mut k: usize = 0;
        proof {
            assert(orig.take(0) =~= Seq::<Fragment>::empty());
            assert(self.in_flight@ =~= Seq::<Fragment>::empty());
        }
        while k < pending.len()
            invariant
                k <= pending@.len(),
                pending@ == orig,
                self.shape == old(self).shape,
                self.now == old(self).now,
                self.trace == old(self).trace,
                self.issued_decodes == old(self).issued_decodes,
                self.requests == old(self).requests,
                self.violations == old(self).violations,
                self.scheduler == old(self).scheduler,
                self.next_fragment == old(self).next_fragment,
                self.seen_ids == old(self).seen_ids,
                self.expected_prompt == old(self).expected_prompt,
                self.expected_decode == old(self).expected_decode,
                self.issued_rows == old(self).issued_rows,
                self.settled_rows == old(self).settled_rows,
                rs == old(self).requests@,
                h == old(self).healthy(),
                forall|q: int| 0 <= q < orig.len() ==> (#[trigger] orig[q]).remaining_stages >= 1,
                forall|q: int|
                    0 <= q < self.in_flight@.len() ==> (#[trigger] self.in_flight@[q]).remaining_stages >= 1,
                travelling_rows(self.in_flight@) + travelling_rows(arrived@) == travelling_rows(
                    orig.take(k as int),
                ),
                forall|n: Seq<char>|
                    travel_add(travel_of(self.in_flight@, n), travel_of(arrived@, n)) == #[trigger] travel_of(
                        orig.take(k as int),
                        n,
                    ),
                h ==> forall|q: int| 0 <= q < orig.len() ==> fragment_ok(#[trigger] orig[q], rs),
                h ==> forall|q: int|
                    0 <= q < self.in_flight@.len() ==> fragment_ok(#[trigger] self.in_flight@[q], rs),
                h ==> forall|q: int| 0 <= q < arrived@.len() ==> fragment_ok(#[trigger] arrived@[q], rs),
                self.in_flight@ == moved_on(orig.take(k as int)),
                arrived@ == arriving(orig.take(k as int)),
            decreases pending@.len() - k,
        {
            let p = &pending[k];
            let fragment = Fragment {
                id: p.id,
                request: p.request.clone(),
                phase: p.phase,
                rows: p.rows,
                token_range: p.token_range,
                remaining_stages: p.remaining_stages - 1,
            };
            let ghost flight = self.in_flight@;
            let ghost landed = arrived@;
            proof {
                assert(orig.take(k + 1).drop_last() =~= orig.take(k as int));
                assert(orig.take(k + 1).last() == orig[k as int]);
                assert(fragment == stepped(orig[k as int]));
                assert forall|n: Seq<char>|
                    travel_add(
                        travel_of(flight.push(fragment), n),
                        travel_of(landed, n),
                    ) == #[trigger] travel_of(orig.take(k + 1), n) && travel_add(
                        travel_of(flight, n),
                        travel_of(landed.push(fragment), n),
                    ) == travel_of(orig.take(k + 1), n) by {
                    lemma_travel_take(orig, k as int, n);
                    lemma_travel_push(flight, fragment, n);
                    lemma_travel_push(landed, fragment, n);
                    assert(contribution(fragment, n) == contribution(orig[k as int], n));
                    assert(travel_add(travel_of(flight, n), travel_of(landed, n)) == travel_of(
                        orig.take(k as int),
                        n,
                    ));
                }
                lemma_travel_take(orig, k as int, Seq::empty());
                lemma_travel_push(flight, fragment, Seq::empty());
                lemma_travel_push(landed, fragment, Seq::empty());
            }
            if fragment.remaining_stages == 0 {
                arrived.push(fragment);
            } else {
                self.in_flight.push(fragment);
            }
            k += 1;
        }
        proof {
            assert(orig.take(orig.len() as int) =~= orig);
            assert(arrived@.take(0) =~= Seq::<Fragment>::empty());
        }
        let mut q: usize = 0;
        while q < arrived.len()
            invariant
                q <= arrived@.len(),
                self.shape == old(self).shape,
                self.now == old(self).now,
                self.trace == old(self).trace,
                self.issued_decodes == old(self).issued_decodes,
                self.scheduler == old(self).scheduler,
                self.next_fragment == old(self).next_fragment,
                self.seen_ids == old(self).seen_ids,
                self.expected_prompt == old(self).expected_prompt,
                self.expected_decode == old(self).expected_decode,
                self.issued_rows == old(self).issued_rows,
                rs == old(self).requests@,
                limit == self.shape.prefill_fragments,
                h == old(self).healthy(),
                old(self).well_formed(),
                self.requests@.len() == rs.len(),
                forall|j: int| 0 <= j < rs.len() ==> (#[trigger] self.requests@[j]).0 == rs[j].0,
                forall|j: int|
                    0 <= j < self.requests@.len() ==> {
                        let r = (#[trigger] self.requests@[j]).1;
                        &&& r.sequence_id is Some
                        &&& r.ready matches Some(ready) ==> ready.phase == Phase::Decode
                    },
                forall|x: int|
                    0 <= x < self.in_flight@.len() ==> (#[trigger] self.in_flight@[x]).remaining_stages >= 1,
                self.settled_rows + travelling_rows(self.in_flight@) + travelling_rows(arrived@)
                    - travelling_rows(arrived@.take(q as int)) <= self.issued_rows,
                old(self).violations@.len() <= self.violations@.len(),
                h ==> self.violations == old(self).violations,
                h ==> self.issued_rows == self.settled_rows + travelling_rows(self.in_flight@)
                    + travelling_rows(arrived@) - travelling_rows(arrived@.take(q as int)),
                h ==> distinct_names(rs),
                h ==> forall|x: int|
                    0 <= x < self.in_flight@.len() ==> fragment_ok(#[trigger] self.in_flight@[x], rs),
                h ==> forall|x: int| 0 <= x < arrived@.len() ==> fragment_ok(#[trigger] arrived@[x], rs),
                h ==> forall|j: int|
                    0 <= j < rs.len() ==> request_ok(
                        (#[trigger] rs[j]).0@,
                        self.requests@[j].1,
                        j,
                        travel_sub(
                            travel_add(travel_of(self.in_flight@, rs[j].0@), travel_of(arrived@, rs[j].0@)),
                            travel_of(arrived@.take(q as int), rs[j].0@),
                        ),
                        limit,
                        table_get(self.expected_prompt@, rs[j].0@),
                        table_get(self.expected_decode@, rs[j].0@),
                    ),
                arrived@ == arriving(orig),
                self.in_flight@ == moved_on(orig),
                h ==> self.settled_rows == old(self).settled_rows + travelling_rows(arrived@.take(q as int)),
                h ==> forall|j: int|
                    0 <= j < rs.len() ==> settled_request(
                        rs[j].1,
                        #[trigger] self.requests@[j].1,
                        travel_of(arrived@.take(q as int), rs[j].0@),
                    ),
            decreases arrived@.len() - q,
        {
            let fragment = &arrived[q];
            let ghost name = fragment.request@;
            proof {
                lemma_travel_take(arrived@, q as int, name);
                lemma_travel_take(arrived@, q as int, Seq::empty());
                lemma_travel_rest(arrived@, q + 1, name);
                lemma_travel_rest(arrived@, q + 1, Seq::empty());
                lemma_travel_basic(self.in_flight@, name);
                lemma_travel_basic(self.in_flight@, Seq::empty());
            }
            q += 1;
            let j = match find_request(&self.requests, &fragment.request) {
                Some(j) => j,
                None => {
                    proof {
                        if h {
                            assert(fragment_ok(arrived@[q - 1], rs));
                            let w = choose|w: int| 0 <= w < rs.len() && (#[trigger] rs[w]).0@ == name;
                            assert(self.requests@[w].0 == rs[w].0);
                        }
                    }
                    self.violations.push(
                        Violation {
                            tick,
                            rule: "settled fragment belongs to a live request",
                            detail: joined(fragment.request.as_str(), " is not admitted"),
                        },
                    );
                    continue ;
                },
            };
            let ghost t = travel_sub(
                travel_add(travel_of(self.in_flight@, name), travel_of(arrived@, name)),
                travel_of(arrived@.take(q - 1), name),
            );
            proof {
                assert(self.requests@[j as int].0 == rs[j as int].0);
                if h {
                    assert(request_ok(rs[j as int].0@, self.requests@[j as int].1, j as int, t, limit,
                        table_get(self.expected_prompt@, name), table_get(self.expected_decode@, name)));
                    assert(t.all >= 1);
                }
            }
            if self.requests[j].1.outstanding == 0 {
                self.violations.push(
                    Violation {
                        tick,
                        rule: "a settlement matches an outstanding fragment",
                        detail: joined(fragment.request.as_str(), " settled with nothing in flight"),
                    },
                );
                continue ;
            }
            let ghost before = self.requests@;
            let ghost old_request = before[j as int].1;
            let (name_string, mut request) = self.requests.remove(j);
            request.outstanding = request.outstanding - 1;
            self.settled_rows = self.settled_rows + fragment.rows as u128;
            match fragment.phase {
                Phase::Prefill => {
                    request.prompt_cursor = request.prompt_cursor.saturating_add(fragment.rows);
                    // The prompt is complete: the tail hands back the first
                    // generated token, exactly as the real settlement does.
                    if request.prompt_cursor == request.tokens.len() {
                        request.generated = request.generated.saturating_add(1);
                    }
                },
                _ => {
                    request.generated = request.generated.saturating_add(1);
                },
            }
            // One rule for both: a settlement produces a token, and the next
            // input row is that token at its own position, until the request
            // has generated all it asked for.
            request.ready = if request.generated < request.max_tokens {
                Some(ready_decode(next_input_position(&request)))
            } else {
                None
            };
            proof {
                if h {
                    assert(settle_step(old_request, request, arrived@[q - 1]));
                }
            }
            self.requests.insert(j, (name_string, request));
            proof {
                assert(self.requests@ =~= before.update(j as int, self.requests@[j as int]));
                assert forall|x: int| 0 <= x < self.requests@.len() implies ({
                    let r = (#[trigger] self.requests@[x]).1;
                    &&& r.sequence_id is Some
                    &&& r.ready matches Some(ready) ==> ready.phase == Phase::Decode
                }) by {
                    if x != j {
                        assert(self.requests@[x] == before[x]);
                    }
                }
                assert forall|x: int| 0 <= x < rs.len() implies (#[trigger] self.requests@[x]).0 == rs[x].0 by {
                    if x != j {
                        assert(self.requests@[x] == before[x]);
                    }
                }
                if h {
                    let t2 = travel_sub(
                        travel_add(travel_of(self.in_flight@, name), travel_of(arrived@, name)),
                        travel_of(arrived@.take(q as int), name),
                    );
                    assert(t2 == travel_sub(t, contribution(arrived@[q - 1], name)));
                    assert(self.requests@[j as int].0@ == name);
                    assert(request_ok(name, self.requests@[j as int].1, j as int, t2, limit,
                        table_get(self.expected_prompt@, name), table_get(self.expected_decode@, name)));
                    let st = travel_of(arrived@.take(q - 1), name);
                    lemma_travel_basic(arrived@.take(q - 1), name);
                    lemma_settle_step(rs[j as int].1, old_request, self.requests@[j as int].1, st, arrived@[q - 1]);
                    assert forall|x: int| 0 <= x < rs.len() implies settled_request(
                        rs[x].1,
                        #[trigger] self.requests@[x].1,
                        travel_of(arrived@.take(q as int), rs[x].0@),
                    ) by {
                        lemma_travel_take(arrived@, q - 1, rs[x].0@);
                        if x != j {
                            assert(self.requests@[x] == before[x]);
                            assert(rs[x].0@ != name);
                        }
                    }
                    assert forall|x: int| 0 <= x < rs.len() implies request_ok(
                        (#[trigger] rs[x]).0@,
                        self.requests@[x].1,
                        x,
                        travel_sub(
                            travel_add(travel_of(self.in_flight@, rs[x].0@), travel_of(arrived@, rs[x].0@)),
                            travel_of(arrived@.take(q as int), rs[x].0@),
                        ),
                        limit,
                        table_get(self.expected_prompt@, rs[x].0@),
                        table_get(self.expected_decode@, rs[x].0@),
                    ) by {
                        lemma_travel_take(arrived@, q - 1, rs[x].0@);
                        if x != j {
                            assert(self.requests@[x] == before[x]);
                            assert(rs[x].0@ != name);
                        }
                    }
                }
            }
        }
        proof {
            reveal(advance_post);
            assert(arrived@.take(arrived@.len() as int) =~= arrived@);
            assert(orig.take(orig.len() as int) =~= orig);
            if h {
                assert forall|j: int| 0 <= j < rs.len() implies travel_of(arrived@, (#[trigger] rs[j]).0@)
                    == travel_of(arrived@.take(arrived@.len() as int), rs[j].0@) by {}
            }
        }
    }

    /// One demand for each request that may issue now, in admission order.
    fn ready_demands(&self) -> (r: (Vec<Demand>, Ghost<Seq<int>>))
        requires
            self.well_formed(),
        ensures
            r.1@.len() == r.0@.len(),
            r.0@.len() <= self.requests@.len(),
            forall|d: int|
                0 <= d < r.0@.len() ==> demand_of(
                    #[trigger] r.0@[d],
                    self.requests@,
                    r.1@[d],
                    self.shape.prefill_fragments,
                ),
            forall|d: int, e: int| 0 <= d < e < r.0@.len() ==> #[trigger] r.1@[d] < #[trigger] r.1@[e],
            r.1@ == ready_indices(self.requests@, self.shape.prefill_fragments),
    {
        let limit = self.shape.prefill_fragments;
        let mut demands: Vec<Demand> = Vec::new();
        let ghost mut src: Seq<int> = Seq::empty();
        let mut j: usize = 0;
        proof {
            reveal_strlit("sim");
            assert(self.requests@.take(0) =~= Seq::<(String, RequestState)>::empty());
        }
        while j < self.requests.len()
            invariant
                j <= self.requests@.len(),
                self.well_formed(),
                limit == self.shape.prefill_fragments,
                src.len() == demands@.len(),
                demands@.len() <= j,
                forall|d: int| 0 <= d < demands@.len() ==> 0 <= #[trigger] src[d] < j,
                forall|d: int|
                    0 <= d < demands@.len() ==> demand_of(#[trigger] demands@[d], self.requests@, src[d], limit),
                forall|d: int, e: int| 0 <= d < e < demands@.len() ==> #[trigger] src[d] < #[trigger] src[e],
                src == ready_indices(self.requests@.take(j as int), limit),
            decreases self.requests@.len() - j,
        {
            proof {
                assert(self.requests@.take(j + 1).drop_last() =~= self.requests@.take(j as int));
                assert(self.requests@.take(j + 1).last() == self.requests@[j as int]);
            }
            let (id, request) = (&self.requests[j].0, &self.requests[j].1);
            assert(self.requests@[j as int].1.ready matches Some(ready) ==> ready.phase == Phase::Decode);
            match request.phase_within(limit) {
                None => {},
                Some(phase) => {
                    let available_rows = match phase {
                        Phase::Prefill => request.tokens.len() - request.prompt_issued,
                        _ => match &request.ready {
                            Some(ready) => ready.tokens.len(),
                            None => 0,
                        },
                    };
                    if available_rows != 0 {
                        let sequence_id = match request.sequence_id {
                            Some(s) => s,
                            None => 0,
                        };
                        let ghost at = j as int;
                        let ghost prior = demands@;
                        demands.push(
                            Demand {
                                request_id: id.clone(),
                                sequence_id,
                                compatibility: "sim".to_owned(),
                                phase,
                                available_rows,
                                atomic: false,
                            },
                        );
                        proof {
                            src = src.push(at);
                            assert(demand_of(demands@.last(), self.requests@, at, limit));
                            assert forall|d: int| 0 <= d < demands@.len() implies demand_of(
                                #[trigger] demands@[d],
                                self.requests@,
                                src[d],
                                limit,
                            ) by {
                                if d < prior.len() {
                                    assert(demands@[d] == prior[d]);
                                }
                            }
                        }
                    }
                },
            }
            j += 1;
        }
        proof {
            assert(self.requests@.take(self.requests@.len() as int) =~= self.requests@);
        }
        (demands, Ghost(src))
    }

    /// Plans one batch from whatever is ready and sends it into the pipeline.
    #[verifier::rlimit(40)]
    fn issue(&mut self, tick: usize)
        requires
            old(self).well_formed(),
        ensures
            final(self).well_formed(),
            final(self).now == old(self).now,
            final(self).shape == old(self).shape,
            final(self).settled_rows == old(self).settled_rows,
            final(self).requests@.len() == old(self).requests@.len(),
            forall|j: int| 0 <= j < old(self).requests@.len() ==> (#[trigger] final(self).requests@[j]).0 == old(self).requests@[j].0,
            old(self).violations@.len() <= final(self).violations@.len(),
            issue_guard(*old(self)) ==> final(self).healthy() && final(self).violations@ == old(self).violations@,
            ready_indices(old(self).requests@, old(self).shape.prefill_fragments).len() == 0 ==> *final(self) == *old(self),
            ready_indices(old(self).requests@, old(self).shape.prefill_fragments).len() > 0 ==> (exists|ds: Seq<Demand>, out: Seq<crate::scheduler::Allocation>|
                planned_from(*old(self), *final(self), ds, out)) || (exists|ds: Seq<Demand>|
                refused_from(*old(self), *final(self), ds)),
            old(self).in_flight@.len() <= final(self).in_flight@.len(),
            final(self).in_flight@.take(old(self).in_flight@.len() as int) == old(self).in_flight@,
            final(self).in_flight@.skip(old(self).in_flight@.len() as int).len() == 0 ==> final(self).trace == old(self).trace,
            final(self).in_flight@.skip(old(self).in_flight@.len() as int).len() > 0 ==> final(self).trace@ == old(self).trace@.push(final(self).trace@.last()) && final(self).trace@.last().tick == tick
                && batch_lists(final(self).trace@.last(), final(self).in_flight@.skip(old(self).in_flight@.len() as int)),
            issue_guard(*old(self)) ==> {
                &&& final(self).next_fragment == old(self).next_fragment + final(self).in_flight@.skip(old(self).in_flight@.len() as int).len()
                &&& ids_from(final(self).in_flight@.skip(old(self).in_flight@.len() as int), old(self).next_fragment as int)
                &&& final(self).issued_decodes@ == old(self).issued_decodes@ + decode_entries(final(self).in_flight@.skip(old(self).in_flight@.len() as int), old(self).requests@)
                &&& forall|j: int|
                    0 <= j < old(self).requests@.len() ==> issued_request(
                        old(self).requests@[j].1,
                        #[trigger] final(self).requests@[j].1,
                        travel_of(final(self).in_flight@.skip(old(self).in_flight@.len() as int), old(self).requests@[j].0@),
                    )
            },
            issue_post(*old(self), *final(self), tick),
    {
        let ghost h = old(self).healthy() && old(self).scheduler.accepted() < old(self).now
            && old(self).next_fragment - 1 <= (old(self).now - 1) * old(self).requests@.len()
            && old(self).now * old(self).requests@.len() + 2 <= u64::MAX;
        let ghost rs = self.requests@;
        let ghost fs0 = self.in_flight@;
        let ghost ep0 = self.expected_prompt@;
        let ghost ed0 = self.expected_decode@;
        let ghost n = rs.len();
        let ghost limit = self.shape.prefill_fragments;
        let (demands, Ghost(src)) = self.ready_demands();
        if demands.len() == 0 {
            proof {
                reveal(issue_post);
            }
            return ;
        }
        proof {
            if h {
                lemma_ready_demands_valid(demands@, src, rs, limit);
            }
        }
        let ghost accepted_before = self.scheduler.accepted();
        let ghost policy_before = self.scheduler.policy();
        let allocations = match self.scheduler.plan_with_physical_capacity(
            &demands,
            self.shape.batch_capacity,
            self.shape.physical_capacity,
            self.shape.equal_sequence_ubatch,
            16,
            false,
        ) {
            Ok(allocations) => allocations,
            Err(e) => {
                proof {
                    if h {
                        crate::scheduler::lemma_valid_iff_no_fault(demands@);
                        assert(accepted_before < u64::MAX);
                        assert(!crate::scheduler::has_atomic(demands@));
                    }
                }
                self.violations.push(
                    Violation {
                        tick,
                        rule: "the scheduler plans whatever is ready",
                        detail: "planning failed with demands present".to_owned(),
                    },
                );
                proof {
                    assert(refused_from(*old(self), *self, demands@));
                    reveal(issue_post);
                }
                return ;
            },
        };
        let ghost out = allocations@;
        let ghost cap = if crate::scheduler::has_atomic(demands@) || self.shape.equal_sequence_ubatch {
            self.shape.physical_capacity as int
        } else {
            self.shape.batch_capacity as int
        };
        proof {
            let limits = crate::scheduler::OrdinaryLimits { prefill_rows: 0, prefill_members: 0, decode_members: 0 };
            law_plans_draw_from_demands(
                policy_before,
                accepted_before,
                demands@,
                self.shape.batch_capacity,
                self.shape.physical_capacity,
                self.shape.equal_sequence_ubatch,
                16,
                false,
                limits,
                out,
                self.scheduler.policy(),
            );
            crate::capacity::law_plans_fit_capacity(
                policy_before,
                accepted_before,
                demands@,
                self.shape.batch_capacity,
                self.shape.physical_capacity,
                self.shape.equal_sequence_ubatch,
                16,
                false,
                limits,
                out,
                self.scheduler.policy(),
            );
            assert(self.scheduler.accepted() == accepted_before + 1);
            assert(out.take(0) =~= Seq::<crate::scheduler::Allocation>::empty());
            if h {
                lemma_allocations_bounded(demands@, src, out, rs, limit);
            }
        }
        let ghost issued0 = self.issued_rows;
        let ghost travelling0 = travelling_rows(self.in_flight@);
        let ghost now = self.now as int;
        proof {
            let m = usize::MAX as int;
            let acc = accepted_before as int;
            assert(acc * m + m == (acc + 1) * m) by (nonlinear_arith);
            assert(planned_rows(out.take(0)) == 0);
            if out.len() > 0 {
                lemma_planned_prefix(out, 0);
            } else {
                assert(out.take(0) =~= out);
            }
            let acc1 = self.scheduler.accepted() as int;
            assert(acc1 * m <= u128::MAX) by (nonlinear_arith)
                requires
                    0 <= acc1 <= u64::MAX,
                    0 <= m <= u64::MAX,
            ;
            if h {
                let nf = old(self).next_fragment as int;
                assert(nf - 1 <= now * n) by (nonlinear_arith)
                    requires
                        nf - 1 <= (now - 1) * n,
                        n >= 0,
                ;
                lemma_allocations_bounded(demands@, src, out, rs, limit);
                assert(self.healthy());
            }
        }
        let ghost scheduled = self.scheduler;
        let ghost next0 = self.next_fragment;
        let ghost n0 = fs0.len() as int;
        let mut rows: Vec<(String, Phase, usize)> = Vec::new();
        let mut issue_faults: Vec<Violation> = Vec::new();
        let mut a: usize = 0;
        proof {
            assert(self.in_flight@.take(n0) =~= fs0);
            assert(self.in_flight@.skip(n0) =~= Seq::<Fragment>::empty());
            assert(out.take(0) =~= Seq::<crate::scheduler::Allocation>::empty());
            if h {
                assert forall|j: int| 0 <= j < n implies issued_request(
                    rs[j].1,
                    #[trigger] self.requests@[j].1,
                    travel_of(self.in_flight@.skip(n0), rs[j].0@),
                ) by {}
            }
        }
        while a < allocations.len()
            invariant
                a <= out.len(),
                fs0 == old(self).in_flight@,
                n0 == fs0.len(),
                self.in_flight@.len() == n0 + a,
                self.in_flight@.take(n0) == fs0,
                fragments_for(self.in_flight@.skip(n0), out.take(a as int), old(self).shape.stages),
                rows@.len() == a,
                forall|k: int|
                    0 <= k < a ==> #[trigger] rows@[k] == (
                        self.in_flight@[n0 + k].request,
                        self.in_flight@[n0 + k].phase,
                        self.in_flight@[n0 + k].rows,
                    ),
                self.trace == old(self).trace,
                self.scheduler == scheduled,
                next0 == old(self).next_fragment,
                h ==> self.next_fragment == next0 + a,
                h ==> ids_from(self.in_flight@.skip(n0), next0 as int),
                h ==> self.issued_decodes@ == old(self).issued_decodes@ + decode_entries(self.in_flight@.skip(n0), rs),
                h ==> forall|j: int|
                    0 <= j < n ==> issued_request(
                        rs[j].1,
                        #[trigger] self.requests@[j].1,
                        travel_of(self.in_flight@.skip(n0), rs[j].0@),
                    ),
                out == allocations@,
                self.shape == old(self).shape,
                self.now == old(self).now,
                now == self.now,
                self.scheduler.accepted() == accepted_before + 1,
                old(self).well_formed(),
                self.requests@.len() == n,
                n == rs.len(),
                forall|j: int| 0 <= j < n ==> (#[trigger] self.requests@[j]).0 == rs[j].0,
                forall|j: int|
                    0 <= j < self.requests@.len() ==> {
                        let r = (#[trigger] self.requests@[j]).1;
                        &&& r.sequence_id is Some
                        &&& r.ready matches Some(ready) ==> ready.phase == Phase::Decode
                    },
                forall|x: int|
                    0 <= x < self.in_flight@.len() ==> (#[trigger] self.in_flight@[x]).remaining_stages >= 1,
                self.shape.stages >= 1,
                self.settled_rows == old(self).settled_rows,
                self.issued_rows == issued0 + planned_rows(out.take(a as int)),
                issued0 <= accepted_before * (usize::MAX as int),
                issued0 + planned_rows(out) <= self.scheduler.accepted() * (usize::MAX as int),
                self.scheduler.accepted() * (usize::MAX as int) <= u128::MAX,
                rs == old(self).requests@,
                old(self).settled_rows + travelling0 <= issued0,
                travelling_rows(self.in_flight@) == travelling0 + planned_rows(out.take(a as int)),
                planned_rows(out.take(a as int)) <= planned_rows(out),
                planned_rows(out) <= cap,
                cap <= usize::MAX,
                old(self).violations@.len() <= self.violations@.len(),
                h == (old(self).healthy() && old(self).scheduler.accepted() < old(self).now
                    && old(self).next_fragment - 1 <= (old(self).now - 1) * old(self).requests@.len()
                    && old(self).now * old(self).requests@.len() + 2 <= u64::MAX),
                forall|k: int|
                    0 <= k < out.len() ==> crate::plan_laws::drawn_from_some(demands@, #[trigger] out[k]),
                forall|k: int, l: int|
                    0 <= k < l < out.len() ==> #[trigger] out[k].sequence_id != #[trigger] out[l].sequence_id,
                forall|d: int|
                    0 <= d < demands@.len() ==> demand_of(#[trigger] demands@[d], rs, src[d], limit),
                src.len() == demands@.len(),
                limit == self.shape.prefill_fragments,
                h ==> out.len() <= n,
                h ==> issue_faults@.len() == 0,
                h ==> self.violations == old(self).violations,
                h ==> self.healthy(),
                h ==> requests_plannable(rs),
                h ==> forall|d: int| 0 <= d < demands@.len() ==> (#[trigger] demands@[d]).sequence_id == src[d],
                h ==> forall|j: int|
                    0 <= j < n && untouched(out, a as int, j) ==> #[trigger] self.requests@[j].1 == rs[j].1,
                h ==> self.next_fragment - 1 <= (now - 1) * n + a,
                h ==> now * n + 2 <= u64::MAX,
            decreases out.len() - a,
        {
            let allocation = &allocations[a];
            let ghost jj = allocation.sequence_id as int;
            let ghost s0 = *self;
            proof {
                lemma_planned_prefix(out, a as int);
                assert(crate::plan_laws::drawn_from_some(demands@, out[a as int]));
                let d0 = choose|d0: int| 0 <= d0 < demands@.len() && crate::plan_laws::drawn_from(out[a as int], #[trigger] demands@[d0]);
                assert(allocation.rows >= 1);
                if h {
                    let d = lemma_allocation_source(demands@, src, out, rs, limit, a as int);
                    assert forall|k: int| 0 <= k < a implies (#[trigger] out[k]).sequence_id != jj by {
                        assert(out[k].sequence_id != out[a as int].sequence_id);
                    }
                    assert(untouched(out, a as int, jj));
                    assert(self.requests@[jj].1 == rs[jj].1);
                    assert(0 <= jj < n);
                    assert((now - 1) * n + a + 1 <= now * n) by (nonlinear_arith)
                        requires
                            a + 1 <= n,
                    ;
                }
            }
            a += 1;
            if allocation.rows == 0 {
                continue ;
            }
            let stages = self.shape.stages;
            let id = self.next_fragment;
            self.next_fragment = self.next_fragment.wrapping_add(1);
            let fresh = self.seen_ids.insert(id);
            if !fresh {
                proof {
                    if h {
                        assert(s0.seen_ids@.contains(id));
                    }
                }
                issue_faults.push(
                    Violation {
                        tick,
                        rule: "a fragment id is never reused",
                        detail: with_number("fragment ", id as u128, " issued twice"),
                    },
                );
            }
            let j = match find_request(&self.requests, &allocation.request_id) {
                Some(j) => j,
                None => {
                    proof {
                        let d = choose|d: int|
                            0 <= d < demands@.len() && crate::plan_laws::drawn_from(
                                out[a - 1],
                                #[trigger] demands@[d],
                            );
                        assert(demand_of(demands@[d], rs, src[d], limit));
                        assert(self.requests@[src[d]].0 == rs[src[d]].0);
                    }
                    continue ;
                },
            };
            proof {
                if h {
                    assert(distinct_names(rs));
                    assert(self.requests@[j as int].0 == rs[j as int].0);
                    assert(self.requests@[jj].0 == rs[jj].0);
                    assert(j == jj);
                }
            }
            let ghost before = self.requests@;
            let ghost r0 = before[j as int].1;
            let ghost t0 = travel_of(s0.in_flight@, rs[jj].0@);
            proof {
                if h {
                    assert(request_ok(rs[jj].0@, r0, jj, t0, limit,
                        table_get(s0.expected_prompt@, rs[jj].0@), table_get(s0.expected_decode@, rs[jj].0@)));
                    lemma_travel_basic(s0.in_flight@, rs[jj].0@);
                }
            }
            let (name, mut request) = self.requests.remove(j);
            let token_range = if allocation.phase == Phase::Prefill {
                let from = request.prompt_issued;
                request.prompt_issued = request.prompt_issued.saturating_add(allocation.rows);
                Some((from, request.prompt_issued))
            } else {
                None
            };
            if allocation.phase == Phase::Prefill {
                let from = match token_range {
                    Some((f, _)) => f,
                    None => 0,
                };
                let ghost table0 = self.expected_prompt@;
                let e = entry(&mut self.expected_prompt, &allocation.request_id, 0);
                let expected = self.expected_prompt[e].1;
                if from != expected {
                    let mut detail = joined(allocation.request_id.as_str(), ": expected ");
                    detail.append(number(expected).as_str());
                    detail.append(", got ");
                    detail.append(number(from).as_str());
                    issue_faults.push(
                        Violation { tick, rule: "prompt fragments tile the prompt in order", detail },
                    );
                }
                let key = self.expected_prompt[e].0.clone();
                let ghost table = self.expected_prompt@;
                self.expected_prompt.set(e, (key, request.prompt_issued));
                proof {
                    assert forall|m: Seq<char>| #[trigger] table_get(self.expected_prompt@, m) == if m
                        == allocation.request_id@ {
                        Some(request.prompt_issued)
                    } else {
                        table_get(table0, m)
                    } by {
                        lemma_table_set(table, e as int, key, request.prompt_issued, m);
                    }
                    if h {
                        assert forall|k: int| 0 <= k < self.expected_prompt@.len() implies registered_name(
                            s0.requests@,
                            (#[trigger] self.expected_prompt@[k]).0@,
                        ) by {
                            if k == e {
                                assert(s0.requests@[jj].0@ == allocation.request_id@);
                            } else if k < table0.len() {
                                assert(self.expected_prompt@[k] == table0[k]);
                                assert(registered_name(s0.requests@, table0[k].0@));
                            } else {
                                assert(s0.requests@[jj].0@ == allocation.request_id@);
                            }
                        }
                    }
                }
            } else {
                let position = match &request.ready {
                    Some(ready) => Some(ready.position),
                    None => None,
                };
                let ghost table0 = self.expected_decode@;
                let e = entry(&mut self.expected_decode, &allocation.request_id, request.tokens.len() as u32);
                let expected = self.expected_decode[e].1;
                proof {
                    if h {
                        assert(r0.prompt_cursor == r0.tokens@.len());
                        assert(expected == r0.tokens@.len() + r0.generated - 1);
                    }
                }
                if position != Some(expected) {
                    let mut detail = joined(allocation.request_id.as_str(), ": expected ");
                    detail.append(decimal_text(expected as u128).as_str());
                    detail.append(", got ");
                    detail.append(optional_number(position).as_str());
                    issue_faults.push(
                        Violation { tick, rule: "decode positions advance by one from the prompt", detail },
                    );
                }
                let key = self.expected_decode[e].0.clone();
                let ghost table = self.expected_decode@;
                self.expected_decode.set(e, (key, expected.wrapping_add(1)));
                proof {
                    assert forall|m: Seq<char>| #[trigger] table_get(self.expected_decode@, m) == if m
                        == allocation.request_id@ {
                        Some(expected.wrapping_add(1))
                    } else {
                        table_get(table0, m)
                    } by {
                        lemma_table_set(table, e as int, key, expected.wrapping_add(1), m);
                    }
                    if h {
                        assert(expected.wrapping_add(1) == (r0.tokens@.len() + r0.generated) as u32);
                        assert forall|k: int| 0 <= k < self.expected_decode@.len() implies registered_name(
                            s0.requests@,
                            (#[trigger] self.expected_decode@[k]).0@,
                        ) by {
                            if k == e {
                                assert(s0.requests@[jj].0@ == allocation.request_id@);
                            } else if k < table0.len() {
                                assert(self.expected_decode@[k] == table0[k]);
                                assert(registered_name(s0.requests@, table0[k].0@));
                            } else {
                                assert(s0.requests@[jj].0@ == allocation.request_id@);
                            }
                        }
                    }
                }
                self.issued_decodes.push((allocation.request_id.clone(), position));
            }
            request.outstanding = request.outstanding.saturating_add(1);
            self.issued_rows = self.issued_rows + allocation.rows as u128;
            self.issued_ids.push(id);
            if let Some((from, to)) = token_range {
                self.issued_ranges.push((allocation.request_id.clone(), from, to));
            }
            rows.push((allocation.request_id.clone(), allocation.phase, allocation.rows));
            let fragment = Fragment {
                id,
                request: allocation.request_id.clone(),
                phase: allocation.phase,
                rows: allocation.rows,
                token_range,
                remaining_stages: stages,
            };
            let ghost flight = self.in_flight@;
            self.in_flight.push(fragment);
            self.requests.insert(j, (name, request));
            proof {
                lemma_travel_push(flight, fragment, Seq::empty());
                assert(self.requests@ =~= before.update(j as int, self.requests@[j as int]));
                assert forall|k: int| 0 <= k < self.requests@.len() implies ({
                    let r = (#[trigger] self.requests@[k]).1;
                    &&& r.sequence_id is Some
                    &&& r.ready matches Some(ready) ==> ready.phase == Phase::Decode
                }) by {
                    if k != j {
                        assert(self.requests@[k] == before[k]);
                    }
                }
                assert forall|k: int| 0 <= k < n implies (#[trigger] self.requests@[k]).0 == rs[k].0 by {
                    if k != j {
                        assert(self.requests@[k] == before[k]);
                    }
                }
                assert(self.well_formed());
                assert(self.in_flight@.take(n0) =~= flight.take(n0));
                assert(self.in_flight@.skip(n0) =~= flight.skip(n0).push(fragment));
                assert(out.take(a as int) =~= out.take(a - 1).push(out[a - 1]));
                assert(self.in_flight@[n0 + (a - 1)] == fragment);
                assert forall|k: int| 0 <= k < a implies #[trigger] rows@[k] == (
                    self.in_flight@[n0 + k].request,
                    self.in_flight@[n0 + k].phase,
                    self.in_flight@[n0 + k].rows,
                ) by {
                    if k < a - 1 {
                        assert(self.in_flight@[n0 + k] == flight[n0 + k]);
                    }
                }
                if h {
                    assert(s0.requests@ == before);
                    assert(self.requests@ == s0.requests@.update(jj, (s0.requests@[jj].0, request)));
                    lemma_issue_step(s0, *self, jj, request, fragment);
                    assert(self.in_flight@.skip(n0) =~= flight.skip(n0).push(fragment));
                    assert forall|x: int| 0 <= x < n implies issued_request(
                        rs[x].1,
                        #[trigger] self.requests@[x].1,
                        travel_of(self.in_flight@.skip(n0), rs[x].0@),
                    ) by {
                        lemma_travel_push(flight.skip(n0), fragment, rs[x].0@);
                        if x != jj {
                            assert(self.requests@[x] == before[x]);
                            assert(rs[x].0@ != rs[jj].0@);
                        } else {
                            assert(s0.requests@[jj].1 == rs[jj].1);
                        }
                    }
                    assert(ids_from(self.in_flight@.skip(n0), next0 as int));
                    lemma_first_key(rs, rs[jj].0@, 0);
                    if let Some(i) = first_key_from(rs, rs[jj].0@, 0) {
                        assert(i == jj);
                    }
                    assert(table_get(rs, rs[jj].0@) == Some(rs[jj].1));
                    assert(self.in_flight@.skip(n0).drop_last() =~= flight.skip(n0));
                    assert(self.in_flight@.skip(n0).last() == fragment);
                    assert(self.issued_decodes@ == old(self).issued_decodes@ + decode_entries(self.in_flight@.skip(n0), rs));
                    assert forall|x: int| 0 <= x < n && untouched(out, a as int, x) implies #[trigger] self.requests@[x].1
                        == rs[x].1 by {
                        assert(out[a - 1].sequence_id != x);
                        assert(untouched(out, a - 1, x));
                        assert(self.requests@[x] == before[x]);
                    }
                }
            }
        }
        self.violations.append(&mut issue_faults);
        if rows.len() != 0 {
            self.trace.push(IssuedBatch { tick, rows });
        }
        proof {
            assert(out.take(out.len() as int) =~= out);
            assert(planned_from(*old(self), *self, demands@, out));
            reveal(issue_post);
        }
    }

    /// Everything that must hold after every tick: one violation for each
    /// rule that fails, and none exactly when all of them hold.
    #[verifier::rlimit(60)]
    fn check(&mut self, tick: usize)
        requires
            old(self).well_formed(),
        ensures
            (final(self).well_formed()),
            (final(self).now == old(self).now),
            (final(self).shape == old(self).shape),
            (final(self).requests == old(self).requests),
            (final(self).in_flight == old(self).in_flight),
            (old(self).violations@.len() <= final(self).violations@.len()),
            (final(self).violations@.len() == old(self).violations@.len() <==> old(self).invariants_hold()),
            (old(self).invariants_hold() ==> final(self).violations@ == old(self).violations@),
            (old(self).healthy() ==> final(self).healthy()),
            *final(self) == (Simulation { violations: final(self).violations, ..*old(self) }),
            final(self).violations@.take(old(self).violations@.len() as int) == old(self).violations@,
            forall|k: int| old(self).violations@.len() <= k < final(self).violations@.len() ==> (#[trigger] final(self).violations@[k]).tick == tick,
            check_post(*old(self), *final(self), tick),
    {
        let mut found: Vec<Violation> = Vec::new();
        let ghost fs = self.in_flight@;
        // A settled row was issued, and an issued row is settled or travelling.
        let mut travelling: u128 = 0;
        let mut k: usize = 0;
        while k < self.in_flight.len()
            invariant
                k <= fs.len(),
                fs == self.in_flight@,
                travelling == travelling_rows(fs.take(k as int)),
                travelling <= k * (usize::MAX as int),
                found@.len() == 0,
            decreases fs.len() - k,
        {
            proof {
                assert(fs.take(k + 1).drop_last() =~= fs.take(k as int));
                let m = usize::MAX as int;
                assert(m <= 0xffff_ffff_ffff_ffff);
                assert((k + 1) * m == k * m + m) by (nonlinear_arith);
                assert((k + 1) * m <= m * m) by (nonlinear_arith)
                    requires
                        k + 1 <= m,
                        0 <= m,
                ;
                assert(m * m <= 0xffff_ffff_ffff_ffff * 0xffff_ffff_ffff_ffffint) by (nonlinear_arith)
                    requires
                        0 <= m <= 0xffff_ffff_ffff_ffff,
                ;
            }
            travelling = travelling + self.in_flight[k].rows as u128;
            k += 1;
        }
        proof {
            assert(fs.take(fs.len() as int) =~= fs);
            let m = usize::MAX as int;
            assert(m <= 0xffff_ffff_ffff_ffff);
            assert(k * m <= m * m) by (nonlinear_arith)
                requires
                    k <= m,
                    0 <= m,
            ;
            assert(m * m <= 0xffff_ffff_ffff_ffff * 0xffff_ffff_ffff_ffffint) by (nonlinear_arith)
                requires
                    0 <= m <= 0xffff_ffff_ffff_ffff,
            ;
        }
        proof {
            lemma_travel_basic(fs, Seq::empty());
        }
        if self.issued_rows != self.settled_rows + travelling {
            let mut detail = with_number("issued ", self.issued_rows, " settled ");
            detail.append(decimal_text(self.settled_rows).as_str());
            detail.append(" travelling ");
            detail.append(decimal_text(travelling).as_str());
            found.push(Violation { tick, rule: "issued = settled + travelling", detail });
        }
        let ghost balance = finding(
            self.issued_rows != self.settled_rows + travelling_rows(fs),
            "issued = settled + travelling"@,
        );
        proof {
            assert(rules_of(found@) =~= balance);
        }
        let limit = self.shape.prefill_fragments;
        let mut all_consistent = true;
        let mut j: usize = 0;
        while j < self.requests.len()
            invariant
                j <= self.requests@.len(),
                fs == self.in_flight@,
                limit == self.shape.prefill_fragments,
                all_consistent == forall|q: int|
                    0 <= q < j ==> request_consistent(
                        (#[trigger] self.requests@[q]).0@,
                        self.requests@[q].1,
                        fs,
                        limit,
                    ),
                forall|x: int| 0 <= x < found@.len() ==> (#[trigger] found@[x]).tick == tick,
                (found@.len() == (if self.issued_rows == self.settled_rows + travelling_rows(fs) { 0int } else { 1int }))
                    <==> all_consistent,
                found@.len() >= (if self.issued_rows == self.settled_rows + travelling_rows(fs) { 0int } else { 1int }),
                rules_of(found@) =~= balance + findings_upto(self.requests@, fs, limit, j as int),
                balance == finding(
                    self.issued_rows != self.settled_rows + travelling_rows(fs),
                    "issued = settled + travelling"@,
                ),
            decreases self.requests@.len() - j,
        {
            let id = &self.requests[j].0;
            let request = &self.requests[j].1;
            let before = found.len();
            let ghost f0 = found@;
            let ghost base = if self.issued_rows == self.settled_rows + travelling_rows(fs) { 0int } else { 1int };
            // The settled cursor trails the issued one and neither passes the prompt.
            if request.prompt_cursor > request.prompt_issued || request.prompt_issued > request.tokens.len() {
                let mut detail = joined(id.as_str(), ": cursor ");
                detail.append(number(request.prompt_cursor).as_str());
                detail.append(" issued ");
                detail.append(number(request.prompt_issued).as_str());
                detail.append(" prompt ");
                detail.append(number(request.tokens.len()).as_str());
                found.push(Violation { tick, rule: "cursor <= issued <= prompt", detail });
            }
            // A decode has one fragment out at most, whatever the limit says,
            // because its next row is the tail's answer to this one.
            let decodes = self.count_fragments(id, 2);
            if decodes > 1 {
                let mut detail = joined(id.as_str(), ": ");
                detail.append(number(decodes).as_str());
                detail.append(" decode fragments");
                found.push(Violation { tick, rule: "a decode has at most one fragment in flight", detail });
            }
            // The request's own counter against the fragments that exist: a
            // per-request ledger that drifts would cancel out of the
            // whole-simulation sum.
            let mine = self.count_fragments(id, 0);
            if request.outstanding as usize != mine {
                let mut detail = joined(id.as_str(), ": counter ");
                detail.append(decimal_text(request.outstanding as u128).as_str());
                detail.append(" against ");
                detail.append(number(mine).as_str());
                detail.append(" travelling");
                found.push(Violation { tick, rule: "outstanding counts the fragments in flight", detail });
            }
            // The fragment limit is a limit, not a hint.
            let prefills = self.count_fragments(id, 1);
            if prefills > limit as usize {
                let mut detail = joined(id.as_str(), ": ");
                detail.append(number(prefills).as_str());
                detail.append(" travelling against a limit of ");
                detail.append(decimal_text(limit as u128).as_str());
                found.push(Violation { tick, rule: "prompt fragments in flight stay within the limit", detail });
            }
            // A request stops at the tokens it asked for.
            if request.generated > request.max_tokens {
                let mut detail = joined(id.as_str(), ": ");
                detail.append(decimal_text(request.generated as u128).as_str());
                detail.append(" generated against a limit of ");
                detail.append(decimal_text(request.max_tokens as u128).as_str());
                found.push(Violation { tick, rule: "generated never passes max_tokens", detail });
            }
            proof {
                assert(rules_of(found@) =~= rules_of(f0) + request_findings(id@, *request, fs, limit));
                assert(self.requests@.take(j + 1) =~= self.requests@.take(j as int).push(self.requests@[j as int]));
                assert(findings_upto(self.requests@, fs, limit, j + 1) == findings_upto(self.requests@, fs, limit, j as int)
                    + request_findings(self.requests@[j as int].0@, self.requests@[j as int].1, fs, limit));
            }
            let consistent = found.len() == before;
            assert(consistent == request_consistent(id@, *request, fs, limit));
            all_consistent = all_consistent && consistent;
            j += 1;
        }
        proof {
            if old(self).healthy() {
                lemma_healthy_consistent(*old(self));
            }
        }
        let ghost reported = found@;
        let ghost before_all = self.violations@;
        self.violations.append(&mut found);
        proof {
            assert(self.violations@.skip(before_all.len() as int) =~= reported);
            reveal(check_post);
            assert(check_post(*old(self), *self, tick));
        }
    }

    /// Fragments in flight for `name`: every one (`which == 0`), prompt
    /// fragments (`1`), or the others (`2`).
    fn count_fragments(&self, name: &String, which: u8) -> (n: usize)
        requires
            which <= 2,
        ensures
            n == fragments_of(
                self.in_flight@,
                name@,
                if which == 0 {
                    any_phase()
                } else if which == 1 {
                    prefill_phase()
                } else {
                    decode_like_phase()
                },
            ),
    {
        let ghost fs = self.in_flight@;
        let ghost wanted = if which == 0 {
            any_phase()
        } else if which == 1 {
            prefill_phase()
        } else {
            decode_like_phase()
        };
        let mut n: usize = 0;
        let mut k: usize = 0;
        while k < self.in_flight.len()
            invariant
                k <= fs.len(),
                fs == self.in_flight@,
                which <= 2,
                wanted == (if which == 0 {
                    any_phase()
                } else if which == 1 {
                    prefill_phase()
                } else {
                    decode_like_phase()
                }),
                n == fragments_of(fs.take(k as int), name@, wanted),
                n <= k,
            decreases fs.len() - k,
        {
            proof {
                assert(fs.take(k + 1).drop_last() =~= fs.take(k as int));
            }
            let fragment = &self.in_flight[k];
            let phase_fits = if which == 0 {
                true
            } else if which == 1 {
                fragment.phase == Phase::Prefill
            } else {
                fragment.phase != Phase::Prefill
            };
            if fragment.request == *name && phase_fits {
                n += 1;
            }
            k += 1;
        }
        proof {
            assert(fs.take(fs.len() as int) =~= fs);
        }
        n
    }
}

} // verus!
