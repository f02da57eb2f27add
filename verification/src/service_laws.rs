//! What the service policy keeps across calls: a sample is recorded once,
//! a refused or repeated sample changes nothing, open batches keep their
//! records, and the history stays bounded.
use crate::service::{
    decide_spec, first_comparable, matching, max_recent, predict_spec, some_open_unknown, stage_totals,
    ServiceShape, ServiceVerdict, evict, first_closed_from, first_profile_from, first_record_from, observe_spec, profile_for,
    profiles_after, record_matches, register_spec, registered, BudgetView, IssuedView, ProfileView,
    ServiceSample, HISTORY, PROFILE, RECENT,
};
use vstd::prelude::*;

verus! {

/// The history a policy may hold: at most `HISTORY` records and `PROFILE`
/// profiles, each keeping at most `RECENT` samples.
pub open spec fn history_bounded(bv: BudgetView) -> bool {
    &&& bv.issued.len() <= HISTORY
    &&& bv.profiles.len() <= PROFILE
    &&& forall|k: int| 0 <= k < bv.profiles.len() ==> (#[trigger] bv.profiles[k]).recent.len() <= RECENT
}

/// Two records of the same batch, whatever samples each holds.
pub open spec fn same_batch(a: IssuedView, b: IssuedView) -> bool {
    &&& a.load == b.load
    &&& a.session == b.session
    &&& a.ordinal == b.ordinal
    &&& a.executions == b.executions
    &&& a.shape == b.shape
    &&& a.samples.len() == b.samples.len()
}

proof fn lemma_first_record_from(issued: Seq<IssuedView>, s: ServiceSample, k: int)
    requires
        k >= 0,
    ensures
        first_record_from(issued, s, k) matches Some(i) ==> k <= i < issued.len() && record_matches(
            issued[i],
            s,
        ) && forall|j: int| k <= j < i ==> !record_matches(#[trigger] issued[j], s),
        first_record_from(issued, s, k) is None ==> forall|j: int|
            k <= j < issued.len() ==> !record_matches(#[trigger] issued[j], s),
    decreases issued.len() - k,
{
    if k < issued.len() && !record_matches(issued[k], s) {
        lemma_first_record_from(issued, s, k + 1);
    }
}

/// The first matching record stays first when only its samples change.
proof fn lemma_first_record_after_update(
    issued: Seq<IssuedView>,
    s: ServiceSample,
    i: int,
    r: IssuedView,
)
    requires
        first_record_from(issued, s, 0) == Some(i),
        same_batch(issued[i], r),
    ensures
        first_record_from(issued.update(i, r), s, 0) == Some(i),
{
    lemma_first_record_from(issued, s, 0);
    let updated = issued.update(i, r);
    lemma_first_record_from(updated, s, 0);
    assert(record_matches(updated[i], s));
    match first_record_from(updated, s, 0) {
        Some(j) => {
            if j < i {
                assert(updated[j] == issued[j]);
            }
        },
        None => {},
    }
}

/// A sample is recorded once: observing it again right after it was
/// accepted answers `Ok(false)` and changes nothing.
pub proof fn law_observe_is_idempotent(bv: BudgetView, s: ServiceSample)
    requires
        observe_spec(bv, s).0 == Ok::<bool, Seq<char>>(true),
    ensures
        observe_spec(observe_spec(bv, s).1, s) == (Ok::<bool, Seq<char>>(false), observe_spec(bv, s).1),
{
    let i = first_record_from(bv.issued, s, 0)->0;
    let r = bv.issued[i];
    let updated = IssuedView { samples: r.samples.update(s.stage_index as int, Some(s.rpc_us)), ..r };
    lemma_first_record_after_update(bv.issued, s, i, updated);
    lemma_first_record_from(bv.issued, s, 0);
}

/// A refused sample, or one that was already recorded, changes nothing.
pub proof fn law_refused_sample_changes_nothing(bv: BudgetView, s: ServiceSample)
    requires
        observe_spec(bv, s).0 != Ok::<bool, Seq<char>>(true),
    ensures
        observe_spec(bv, s).1 == bv,
{
}

proof fn lemma_first_closed(issued: Seq<IssuedView>, open: Set<u64>, k: int)
    requires
        k >= 0,
    ensures
        first_closed_from(issued, open, k) matches Some(i) ==> k <= i < issued.len() && !open.contains(
            issued[i].ordinal,
        ),
    decreases issued.len() - k,
{
    if k < issued.len() && open.contains(issued[k].ordinal) {
        lemma_first_closed(issued, open, k + 1);
    }
}

/// Expiry removes only closed records, stops below `HISTORY` unless every
/// record is open, and never grows the history.
proof fn lemma_evict(issued: Seq<IssuedView>, open: Set<u64>)
    ensures
        evict(issued, open).0.len() <= issued.len(),
        !evict(issued, open).1 ==> evict(issued, open).0.len() < HISTORY,
        evict(issued, open).1 ==> evict(issued, open).0.len() >= HISTORY,
        forall|k: int|
            0 <= k < issued.len() && open.contains(#[trigger] issued[k].ordinal) ==> evict(
                issued,
                open,
            ).0.contains(issued[k]),
    decreases issued.len(),
{
    if issued.len() >= HISTORY {
        lemma_first_closed(issued, open, 0);
        match first_closed_from(issued, open, 0) {
            None => {
                assert forall|k: int| 0 <= k < issued.len() && open.contains(#[trigger] issued[k].ordinal)
                    implies issued.contains(issued[k]) by {}
            },
            Some(i) => {
                let rest = issued.remove(i);
                lemma_evict(rest, open);
                assert forall|k: int| 0 <= k < issued.len() && open.contains(#[trigger] issued[k].ordinal)
                    implies evict(issued, open).0.contains(issued[k]) by {
                    if k < i {
                        assert(rest[k] == issued[k]);
                    } else {
                        assert(k != i);
                        assert(rest[k - 1] == issued[k]);
                    }
                }
            },
        }
    } else {
        assert forall|k: int| 0 <= k < issued.len() && open.contains(#[trigger] issued[k].ordinal)
            implies issued.contains(issued[k]) by {}
    }
}

proof fn lemma_profiles_after_bounded(ps: Seq<ProfileView>, s: ServiceSample)
    requires
        ps.len() <= PROFILE,
        forall|k: int| 0 <= k < ps.len() ==> (#[trigger] ps[k]).recent.len() <= RECENT,
    ensures
        profiles_after(ps, s).len() <= PROFILE,
        forall|k: int|
            0 <= k < profiles_after(ps, s).len() ==> (#[trigger] profiles_after(ps, s)[k]).recent.len()
                <= RECENT,
{
    let found = first_profile_from(ps, s, 0);
    lemma_first_profile(ps, s, 0);
    let rest = match found {
        Some(i) => ps.remove(i),
        None => ps,
    };
    let kept = if rest.len() == PROFILE {
        rest.drop_first()
    } else {
        rest
    };
    assert forall|k: int| 0 <= k < kept.len() implies (#[trigger] kept[k]).recent.len() <= RECENT by {
        let kk = if rest.len() == PROFILE {
            k + 1
        } else {
            k
        };
        assert(kept[k] == rest[kk]);
        match found {
            Some(i) => {
                if kk < i {
                    assert(rest[kk] == ps[kk]);
                } else {
                    assert(rest[kk] == ps[kk + 1]);
                }
            },
            None => {},
        }
    }
}

proof fn lemma_first_profile(ps: Seq<ProfileView>, s: ServiceSample, k: int)
    requires
        k >= 0,
    ensures
        first_profile_from(ps, s, k) matches Some(i) ==> k <= i < ps.len() && profile_for(ps[i], s),
    decreases ps.len() - k,
{
    if k < ps.len() && !profile_for(ps[k], s) {
        lemma_first_profile(ps, s, k + 1);
    }
}

/// Observing a sample keeps the history bounded and changes no batch's
/// identity: records keep their order, and only the samples of the matched
/// record change.
pub proof fn law_observe_keeps_history(bv: BudgetView, s: ServiceSample)
    requires
        history_bounded(bv),
    ensures
        history_bounded(observe_spec(bv, s).1),
        observe_spec(bv, s).1.budget_us == bv.budget_us,
        observe_spec(bv, s).1.issued.len() == bv.issued.len(),
        forall|k: int|
            0 <= k < bv.issued.len() ==> same_batch(#[trigger] observe_spec(bv, s).1.issued[k], bv.issued[k]),
{
    if observe_spec(bv, s).0 == Ok::<bool, Seq<char>>(true) {
        lemma_profiles_after_bounded(bv.profiles, s);
        let i = first_record_from(bv.issued, s, 0)->0;
        lemma_first_record_from(bv.issued, s, 0);
    }
}

/// Registering an issued batch never expires the record of a batch that is
/// still open, and keeps the history bounded.
pub proof fn law_register_keeps_open_records(
    bv: BudgetView,
    s: ServiceSample,
    ordinal: u64,
    stages: usize,
    open: Set<u64>,
)
    requires
        history_bounded(bv),
        register_spec(bv, s, ordinal, stages, open) is Some,
    ensures
        history_bounded(register_spec(bv, s, ordinal, stages, open)->0),
        forall|k: int|
            0 <= k < bv.issued.len() && open.contains(#[trigger] bv.issued[k].ordinal) ==> exists|q: int|
                0 <= q < (register_spec(bv, s, ordinal, stages, open)->0).issued.len() && same_batch(
                    (register_spec(bv, s, ordinal, stages, open)->0).issued[q],
                    bv.issued[k],
                ),
{
    let (kept, blocked) = evict(bv.issued, open);
    lemma_evict(bv.issued, open);
    let after = register_spec(bv, s, ordinal, stages, open)->0;
    let trimmed = BudgetView { issued: kept, ..bv };
    assert(history_bounded(trimmed));
    if blocked || !crate::service::extent_ok(s) || stages > crate::service::MAX_STAGES {
        assert forall|k: int|
            0 <= k < bv.issued.len() && open.contains(#[trigger] bv.issued[k].ordinal) implies exists|q: int|
            0 <= q < after.issued.len() && same_batch(after.issued[q], bv.issued[k]) by {
            assert(kept.contains(bv.issued[k]));
            let q = choose|q: int| 0 <= q < kept.len() && kept[q] == bv.issued[k];
            assert(same_batch(after.issued[q], bv.issued[k]));
        }
    } else {
        let pushed = BudgetView { issued: kept.push(registered(s, ordinal, stages)), ..bv };
        assert(history_bounded(pushed));
        law_observe_keeps_history(pushed, s);
        assert forall|k: int|
            0 <= k < bv.issued.len() && open.contains(#[trigger] bv.issued[k].ordinal) implies exists|q: int|
            0 <= q < after.issued.len() && same_batch(after.issued[q], bv.issued[k]) by {
            assert(kept.contains(bv.issued[k]));
            let q = choose|q: int| 0 <= q < kept.len() && kept[q] == bv.issued[k];
            assert(pushed.issued[q] == bv.issued[k]);
            assert(same_batch(after.issued[q], pushed.issued[q]));
        }
    }
}

/// A policy without history knows no stage: asked, while decoding, about a
/// shape with prompt rows, over any open batches and at least one stage, it
/// answers `Cold` — an open batch it has no record of, or a stage it has no
/// profile for, leaves the cost unknown. This is where `clear` leaves an
/// enabled policy.
pub proof fn law_empty_history_is_cold<V>(
    bv: BudgetView,
    load: u64,
    session: Seq<char>,
    stages: usize,
    shape: ServiceShape,
    open: Map<u64, V>,
)
    requires
        bv.budget_us is Some,
        bv.issued.len() == 0,
        bv.profiles.len() == 0,
        stages >= 1,
        shape.prefill_rows > 0,
    ensures
        decide_spec(bv, load, session, stages, shape, true, open) is Some,
        decide_spec(bv, load, session, stages, shape, true, open)->0.verdict == ServiceVerdict::Cold,
{
    let stage = (stages - 1) as usize;
    assert(matching(bv.profiles, load, session, stage, shape).len() == 0);
    assert(predict_spec(bv.profiles, load, session, stage, shape) is None);
    if !some_open_unknown(bv.issued, load, session, open.dom()) {
        assert(stage_totals(
            bv.profiles,
            load,
            session,
            shape,
            crate::service::live_records(bv.issued, load, session, open.dom()),
            stages as nat,
        ).complete == false);
    }
}

/// `x` is the worst of the samples `r`: no sample exceeds it, and one of
/// them is it.
pub open spec fn worst_of(r: Seq<u64>, x: u64) -> bool {
    &&& forall|i: int| 0 <= i < r.len() ==> #[trigger] r[i] <= x
    &&& exists|i: int| 0 <= i < r.len() && #[trigger] r[i] == x
}

proof fn lemma_max_recent(r: Seq<u64>)
    ensures
        r.len() == 0 ==> max_recent(r) is None,
        r.len() > 0 ==> max_recent(r) is Some && worst_of(r, max_recent(r)->0),
    decreases r.len(),
{
    if r.len() > 0 {
        let init = r.drop_last();
        lemma_max_recent(init);
        let x = max_recent(r)->0;
        assert forall|i: int| 0 <= i < r.len() implies #[trigger] r[i] <= x by {
            if i < init.len() {
                assert(init[i] == r[i]);
            }
        }
        if init.len() > 0 && max_recent(init)->0 >= r.last() {
            let j = choose|j: int| 0 <= j < init.len() && #[trigger] init[j] == max_recent(init)->0;
            assert(r[j] == x);
        } else {
            assert(r[r.len() - 1] == x);
        }
    }
}

/// A stage with a comparable profile is predicted at the worst of that
/// profile's recent samples — never below any of them — and at nothing when
/// it holds none. The profile is the newest matching one comparable to the
/// candidate.
pub proof fn law_prediction_is_the_worst_comparable_sample(
    ps: Seq<ProfileView>,
    load: u64,
    session: Seq<char>,
    stage: usize,
    shape: ServiceShape,
)
    requires
        first_comparable(matching(ps, load, session, stage, shape), shape) is Some,
    ensures
        first_comparable(matching(ps, load, session, stage, shape), shape)->0.recent.len() == 0
            ==> predict_spec(ps, load, session, stage, shape) is None,
        first_comparable(matching(ps, load, session, stage, shape), shape)->0.recent.len() > 0
            ==> predict_spec(ps, load, session, stage, shape) is Some && worst_of(
            first_comparable(matching(ps, load, session, stage, shape), shape)->0.recent,
            predict_spec(ps, load, session, stage, shape)->0,
        ),
{
    lemma_max_recent(first_comparable(matching(ps, load, session, stage, shape), shape)->0.recent);
}

/// The last `n` of `r`, or all of `r` when it holds no more.
pub open spec fn newest(r: Seq<u64>, n: nat) -> Seq<u64> {
    if r.len() <= n {
        r
    } else {
        r.subrange(r.len() - n, r.len() as int)
    }
}

/// The recent samples of the profile a sample belongs to, or none when it
/// has no profile yet.
pub open spec fn prior_recent(ps: Seq<ProfileView>, s: ServiceSample) -> Seq<u64> {
    match first_profile_from(ps, s, 0) {
        Some(i) => ps[i].recent,
        None => Seq::empty(),
    }
}

proof fn lemma_first_profile_in_range(ps: Seq<ProfileView>, s: ServiceSample, k: int)
    requires
        k >= 0,
    ensures
        first_profile_from(ps, s, k) matches Some(i) ==> k <= i < ps.len() && profile_for(ps[i], s),
    decreases ps.len() - k,
{
    if k < ps.len() && !profile_for(ps[k], s) {
        lemma_first_profile_in_range(ps, s, k + 1);
    }
}

/// A sample joins its profile as the newest of a sliding window: the
/// profile then holds the last `RECENT` of its previous samples followed by
/// this one — the oldest drops out, never a newer one — and it moves to the
/// back of the profile table.
pub proof fn law_profile_keeps_the_newest_samples(ps: Seq<ProfileView>, s: ServiceSample)
    requires
        forall|k: int| 0 <= k < ps.len() ==> (#[trigger] ps[k]).recent.len() <= RECENT,
    ensures
        profile_for(profiles_after(ps, s).last(), s),
        profiles_after(ps, s).last().recent == newest(prior_recent(ps, s).push(s.rpc_us), RECENT as nat),
{
    let prior = prior_recent(ps, s);
    let all = prior.push(s.rpc_us);
    match first_profile_from(ps, s, 0) {
        Some(i) => {
            lemma_first_profile_in_range(ps, s, 0);
            assert(ps[i].recent.len() <= RECENT);
        },
        None => {},
    }
    if prior.len() == RECENT {
        assert(prior.drop_first().push(s.rpc_us) =~= all.subrange(all.len() - RECENT, all.len() as int));
    }
}

/// Observing a new sample keeps its profile's newest `RECENT` samples, the
/// new one last.
pub proof fn law_observed_sample_is_the_newest(bv: BudgetView, s: ServiceSample)
    requires
        history_bounded(bv),
        observe_spec(bv, s).0 == Ok::<bool, Seq<char>>(true),
    ensures
        observe_spec(bv, s).1.profiles.last().recent == newest(prior_recent(bv.profiles, s).push(s.rpc_us), RECENT as nat),
        profile_for(observe_spec(bv, s).1.profiles.last(), s),
{
    law_profile_keeps_the_newest_samples(bv.profiles, s);
}

} // verus!
