//! The prompt rows each fixture case declares for its requests, written down
//! independently of anything a producer reports, so a live count can be held
//! against them.
use vstd::prelude::*;

verus! {

/// The requests a case declares and the prompt rows of each, if the case
/// declares a workload at all.
pub open spec fn prefill_workload_spec(case_id: Seq<char>) -> Option<Seq<(Seq<char>, usize)>> {
    if case_id == "ordinary-2"@ {
        Some(seq![("one"@, 7usize)])
    } else if case_id == "checkpoint-2"@ || case_id == "checkpoint-4"@ {
        Some(seq![("partial"@, 3usize), ("fence-probe"@, 1usize)])
    } else if case_id == "mixed-owner-2"@ || case_id == "mixed-owner-4"@ || case_id == "mixed-consumer-2"@
        || case_id == "mixed-consumer-4"@ {
        Some(seq![("release-owner-a"@, 1usize), ("release-owner-b"@, 1usize)])
    } else {
        None
    }
}

/// The rows of the first entry named `request`.
pub open spec fn rows_for(w: Seq<(Seq<char>, usize)>, request: Seq<char>) -> Option<usize>
    decreases w.len(),
{
    if w.len() == 0 {
        None
    } else if w[0].0 == request {
        Some(w[0].1)
    } else {
        rows_for(w.drop_first(), request)
    }
}

/// The prompt rows `case_id` declares for `request`, if it declares any.
pub open spec fn expected_prefill_rows_spec(case_id: Seq<char>, request: Seq<char>) -> Option<usize> {
    match prefill_workload_spec(case_id) {
        Some(w) => rows_for(w, request),
        None => None,
    }
}

fn entry(id: &str, rows: usize) -> (e: (String, usize))
    ensures
        e.0@ == id@,
        e.1 == rows,
{
    (id.to_owned(), rows)
}

fn prefill_workload(case_id: &str) -> (r: Option<Vec<(String, usize)>>)
    ensures
        match (r, prefill_workload_spec(case_id@)) {
            (Some(v), Some(w)) => v@.len() == w.len() && forall|k: int|
                0 <= k < w.len() ==> (#[trigger] v@[k]).0@ == w[k].0 && v@[k].1 == w[k].1,
            (None, None) => true,
            _ => false,
        },
{
    let case = case_id.to_owned();
    let mut v: Vec<(String, usize)> = Vec::new();
    if case == "ordinary-2".to_owned() {
        v.push(entry("one", 7));
    } else if case == "checkpoint-2".to_owned() || case == "checkpoint-4".to_owned() {
        v.push(entry("partial", 3));
        v.push(entry("fence-probe", 1));
    } else if case == "mixed-owner-2".to_owned() || case == "mixed-owner-4".to_owned() || case
        == "mixed-consumer-2".to_owned() || case == "mixed-consumer-4".to_owned() {
        v.push(entry("release-owner-a", 1));
        v.push(entry("release-owner-b", 1));
    } else {
        return None;
    }
    Some(v)
}

/// The prompt rows the case declares for `request`. Asking about a case that
/// declares no workload, or a request the case does not know, is a mistake in
/// the fixture, not an input.
pub fn expected_prefill_rows(case_id: &str, request: &str) -> (rows: usize)
    requires
        expected_prefill_rows_spec(case_id@, request@) is Some,
    ensures
        Some(rows) == expected_prefill_rows_spec(case_id@, request@),
{
    let workload = match prefill_workload(case_id) {
        Some(w) => w,
        None => {
            return 0;
        },
    };
    let ghost w = prefill_workload_spec(case_id@)->0;
    let wanted = request.to_owned();
    let mut k: usize = 0;
    proof {
        assert(w.subrange(0, w.len() as int) =~= w);
    }
    while k < workload.len()
        invariant
            k <= workload@.len(),
            workload@.len() == w.len(),
            forall|i: int| 0 <= i < w.len() ==> (#[trigger] workload@[i]).0@ == w[i].0 && workload@[i].1 == w[i].1,
            wanted@ == request@,
            prefill_workload_spec(case_id@) == Some(w),
            rows_for(w, request@) == rows_for(w.subrange(k as int, w.len() as int), request@),
            rows_for(w, request@) is Some,
        decreases workload@.len() - k,
    {
        proof {
            let rest = w.subrange(k as int, w.len() as int);
            assert(rest.drop_first() =~= w.subrange(k + 1, w.len() as int));
            assert(rest[0] == w[k as int]);
            assert(rows_for(rest, request@) == if rest[0].0 == request@ {
                Some(rest[0].1)
            } else {
                rows_for(rest.drop_first(), request@)
            });
        }
        if workload[k].0 == wanted {
            proof {
                assert(workload@[k as int].0@ == w[k as int].0);
                assert(prefill_workload_spec(case_id@) == Some(w));
            }
            return workload[k].1;
        }
        k += 1;
    }
    proof {
        assert(w.subrange(k as int, w.len() as int).len() == 0);
    }
    0
}

} // verus!
