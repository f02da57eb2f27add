//! The service shape of a batch: its prompt and decode rows, its members and
//! the last input position it feeds. A planned batch is read off its
//! allocations and the progress of their requests; a physical one off the
//! rows its capsules carry.
use crate::capacity::planned_rows;
use crate::request::RequestState;
use crate::scheduler::{Allocation, Phase};
use crate::service::ServiceShape;
use crate::simulator::{first_key_from, table_get};
use vstd::prelude::*;

verus! {

/// The first input position an allocation feeds: where the prompt was issued
/// up to, or the position of the ready decode row. `None` for any other
/// phase, a decode with nothing ready, or a prompt position past `u32`.
pub open spec fn first_position(r: RequestState, a: Allocation) -> Option<int> {
    if a.phase == Phase::Prefill {
        if r.prompt_issued <= u32::MAX {
            Some(r.prompt_issued as int)
        } else {
            None
        }
    } else if a.phase == Phase::Decode {
        match r.ready {
            Some(ready) => Some(ready.position as int),
            None => None,
        }
    } else {
        None
    }
}

/// `s` with allocation `a` added, or `None` when `a` names no request, has no
/// first position, or reaches a position past `u32`.
pub open spec fn shape_step(rs: Seq<(String, RequestState)>, s: ServiceShape, a: Allocation) -> Option<ServiceShape> {
    match table_get(rs, a.request_id@) {
        None => None,
        Some(r) => match first_position(r, a) {
            None => None,
            Some(first) => if a.rows >= 1 && first + a.rows - 1 <= u32::MAX {
                Some(
                    ServiceShape {
                        prefill_rows: if a.phase == Phase::Prefill {
                            (s.prefill_rows + a.rows) as usize
                        } else {
                            s.prefill_rows
                        },
                        decode_rows: if a.phase == Phase::Decode {
                            (s.decode_rows + a.rows) as usize
                        } else {
                            s.decode_rows
                        },
                        members: s.members,
                        last_position: if first + a.rows - 1 > s.last_position {
                            (first + a.rows - 1) as u32
                        } else {
                            s.last_position
                        },
                    },
                )
            } else {
                None
            },
        },
    }
}

/// The shape after the allocations of `out`, in order, counting `members`.
pub open spec fn shape_fold(rs: Seq<(String, RequestState)>, out: Seq<Allocation>, members: usize) -> Option<
    ServiceShape,
>
    decreases out.len(),
{
    if out.len() == 0 {
        Some(ServiceShape { prefill_rows: 0, decode_rows: 0, members, last_position: 0 })
    } else {
        match shape_fold(rs, out.drop_last(), members) {
            None => None,
            Some(s) => shape_step(rs, s, out.last()),
        }
    }
}

/// The service shape of a planned batch: one member per allocation.
pub open spec fn planned_shape_spec(rs: Seq<(String, RequestState)>, out: Seq<Allocation>) -> Option<ServiceShape> {
    shape_fold(rs, out, out.len() as usize)
}

/// Once an allocation has no shape, no longer list has one.
proof fn lemma_fold_none(rs: Seq<(String, RequestState)>, out: Seq<Allocation>, k: int, members: usize)
    requires
        0 <= k <= out.len(),
        shape_fold(rs, out.take(k), members) is None,
    ensures
        shape_fold(rs, out, members) is None,
    decreases out.len() - k,
{
    if k < out.len() {
        assert(out.take(k + 1).drop_last() =~= out.take(k));
        lemma_fold_none(rs, out, k + 1, members);
    } else {
        assert(out.take(k) =~= out);
    }
}

/// The first entry keyed `name`, if any.
fn lookup<'a>(table: &'a Vec<(String, RequestState)>, name: &String) -> (r: Option<&'a RequestState>)
    ensures
        match r {
            Some(v) => table_get(table@, name@) == Some(*v),
            None => table_get(table@, name@) is None,
        },
{
    let mut j: usize = 0;
    while j < table.len()
        invariant
            j <= table@.len(),
            first_key_from(table@, name@, 0) == first_key_from(table@, name@, j as int),
        decreases table@.len() - j,
    {
        if table[j].0 == *name {
            return Some(&table[j].1);
        }
        j += 1;
    }
    None
}

/// The shape the planned allocations would have, reading each request's
/// issued prompt and ready decode from `requests`. `None` as soon as an
/// allocation names no request, is neither a prompt nor a decode, is a
/// decode with nothing ready, or reaches a position past `u32`.
pub fn planned_service_shape(requests: &Vec<(String, RequestState)>, allocations: &[Allocation]) -> (r: Option<
    ServiceShape,
>)
    requires
        planned_rows(allocations@) <= usize::MAX,
    ensures
        r == planned_shape_spec(requests@, allocations@),
{
    let ghost rs = requests@;
    let ghost out = allocations@;
    let members = allocations.len();
    let mut shape = ServiceShape { prefill_rows: 0, decode_rows: 0, members, last_position: 0 };
    let mut k: usize = 0;
    proof {
        assert(out.take(0) =~= Seq::<Allocation>::empty());
    }
    while k < allocations.len()
        invariant
            k <= out.len(),
            out == allocations@,
            rs == requests@,
            members == out.len(),
            planned_rows(out) <= usize::MAX,
            shape_fold(rs, out.take(k as int), members) == Some(shape),
            shape.prefill_rows + shape.decode_rows == planned_rows(out.take(k as int)),
        decreases out.len() - k,
    {
        let allocation = &allocations[k];
        proof {
            assert(out.take(k + 1).drop_last() =~= out.take(k as int));
            assert(out.take(k + 1).last() == out[k as int]);
            crate::capacity::lemma_planned_prefix(out, k as int);
        }
        let request = match lookup(requests, &allocation.request_id) {
            Some(r) => r,
            None => {
                proof {
                    lemma_fold_none(rs, out, k + 1, members);
                }
                return None;
            },
        };
        let first = match allocation.phase {
            Phase::Prefill => {
                if request.prompt_issued > u32::MAX as usize {
                    proof {
                        lemma_fold_none(rs, out, k + 1, members);
                    }
                    return None;
                }
                shape.prefill_rows = shape.prefill_rows + allocation.rows;
                request.prompt_issued as u32
            },
            Phase::Decode => {
                shape.decode_rows = shape.decode_rows + allocation.rows;
                match &request.ready {
                    Some(ready) => ready.position,
                    None => {
                        proof {
                            lemma_fold_none(rs, out, k + 1, members);
                        }
                        return None;
                    },
                }
            },
            _ => {
                proof {
                    lemma_fold_none(rs, out, k + 1, members);
                }
                return None;
            },
        };
        if allocation.rows == 0 || allocation.rows - 1 > u32::MAX as usize {
            proof {
                lemma_fold_none(rs, out, k + 1, members);
            }
            return None;
        }
        let span = (allocation.rows - 1) as u32;
        let last = match first.checked_add(span) {
            Some(v) => v,
            None => {
                proof {
                    lemma_fold_none(rs, out, k + 1, members);
                }
                return None;
            },
        };
        if last > shape.last_position {
            shape.last_position = last;
        }
        k += 1;
    }
    proof {
        assert(out.take(out.len() as int) =~= out);
    }
    Some(shape)
}

/// What a physical capsule records of one row it carries: whose row it is,
/// in which incarnation of that sequence, its phase and its input position.
#[derive(Clone, Copy, Debug, PartialEq, Eq)]
pub struct CapsuleOwner {
    pub sequence_id: u32,
    pub incarnation: u64,
    pub phase: Phase,
    pub position: u32,
}

/// The member a row belongs to.
pub open spec fn member_key(o: CapsuleOwner) -> (u32, u64) {
    (o.sequence_id, o.incarnation)
}

/// The distinct members among `rows`.
pub open spec fn members_of(rows: Seq<CapsuleOwner>) -> Set<(u32, u64)>
    decreases rows.len(),
{
    if rows.len() == 0 {
        Set::empty()
    } else {
        members_of(rows.drop_last()).insert(member_key(rows.last()))
    }
}

/// Rows of `rows` in phase `phase`.
pub open spec fn phase_count(rows: Seq<CapsuleOwner>, phase: Phase) -> int
    decreases rows.len(),
{
    if rows.len() == 0 {
        0
    } else {
        phase_count(rows.drop_last(), phase) + if rows.last().phase == phase {
            1int
        } else {
            0int
        }
    }
}

/// The greatest input position among `rows`, or zero for none.
pub open spec fn max_position(rows: Seq<CapsuleOwner>) -> int
    decreases rows.len(),
{
    if rows.len() == 0 {
        0
    } else if rows.last().position > max_position(rows.drop_last()) {
        rows.last().position as int
    } else {
        max_position(rows.drop_last())
    }
}

/// Every row is a prompt or a decode row.
pub open spec fn prompt_or_decode(rows: Seq<CapsuleOwner>) -> bool {
    forall|i: int| 0 <= i < rows.len() ==> (#[trigger] rows[i]).phase == Phase::Prefill || rows[i].phase == Phase::Decode
}

/// The shape of a physical batch carrying `rows`; `None` for no rows or for
/// a batch holding any row that is neither a prompt nor a decode row.
pub open spec fn physical_shape_spec(rows: Seq<CapsuleOwner>) -> Option<ServiceShape> {
    if rows.len() == 0 || !prompt_or_decode(rows) {
        None
    } else {
        Some(
            ServiceShape {
                prefill_rows: phase_count(rows, Phase::Prefill) as usize,
                decode_rows: phase_count(rows, Phase::Decode) as usize,
                members: members_of(rows).len() as usize,
                last_position: max_position(rows) as u32,
            },
        )
    }
}

proof fn lemma_members_finite(rows: Seq<CapsuleOwner>)
    ensures
        members_of(rows).finite(),
    decreases rows.len(),
{
    if rows.len() > 0 {
        lemma_members_finite(rows.drop_last());
    }
}

proof fn lemma_shape_counts(rows: Seq<CapsuleOwner>, phase: Phase)
    ensures
        0 <= phase_count(rows, phase) <= rows.len(),
        0 <= max_position(rows) <= u32::MAX,
    decreases rows.len(),
{
    if rows.len() > 0 {
        lemma_shape_counts(rows.drop_last(), phase);
    }
}

fn contains_member(seen: &Vec<(u32, u64)>, key: (u32, u64)) -> (r: bool)
    ensures
        r == seen@.contains(key),
{
    let mut j: usize = 0;
    while j < seen.len()
        invariant
            j <= seen@.len(),
            forall|i: int| 0 <= i < j ==> seen@[i] != key,
        decreases seen@.len() - j,
    {
        if seen[j].0 == key.0 && seen[j].1 == key.1 {
            assert(seen@[j as int] == key);
            return true;
        }
        j += 1;
    }
    false
}

/// The shape of a physical batch, from the owner rows of every capsule in
/// it, in order: its prompt rows, its decode rows, its distinct members and
/// its last input position.
pub fn physical_shape(owners: &[CapsuleOwner]) -> (r: Option<ServiceShape>)
    ensures
        r == physical_shape_spec(owners@),
{
    let ghost rows = owners@;
    if owners.len() == 0 {
        return None;
    }
    let mut k: usize = 0;
    while k < owners.len()
        invariant
            k <= rows.len(),
            rows == owners@,
            forall|i: int| 0 <= i < k ==> (#[trigger] rows[i]).phase == Phase::Prefill || rows[i].phase == Phase::Decode,
        decreases rows.len() - k,
    {
        if owners[k].phase != Phase::Prefill && owners[k].phase != Phase::Decode {
            return None;
        }
        k += 1;
    }
    let mut prefill_rows: usize = 0;
    let mut decode_rows: usize = 0;
    let mut last_position: u32 = 0;
    let mut seen: Vec<(u32, u64)> = Vec::new();
    let mut k: usize = 0;
    proof {
        assert(rows.take(0) =~= Seq::<CapsuleOwner>::empty());
        assert(seen@.to_set() =~= Set::<(u32, u64)>::empty());
    }
    while k < owners.len()
        invariant
            k <= rows.len(),
            rows == owners@,
            prefill_rows == phase_count(rows.take(k as int), Phase::Prefill),
            decode_rows == phase_count(rows.take(k as int), Phase::Decode),
            last_position == max_position(rows.take(k as int)),
            seen@.to_set() == members_of(rows.take(k as int)),
            seen@.no_duplicates(),
        decreases rows.len() - k,
    {
        let owner = owners[k];
        proof {
            assert(rows.take(k + 1).drop_last() =~= rows.take(k as int));
            assert(rows.take(k + 1).last() == rows[k as int]);
            lemma_shape_counts(rows.take(k as int), Phase::Prefill);
            lemma_shape_counts(rows.take(k as int), Phase::Decode);
        }
        if owner.phase == Phase::Prefill {
            prefill_rows += 1;
        } else if owner.phase == Phase::Decode {
            decode_rows += 1;
        }
        if owner.position > last_position {
            last_position = owner.position;
        }
        let key = (owner.sequence_id, owner.incarnation);
        if !contains_member(&seen, key) {
            let ghost before = seen@;
            seen.push(key);
            proof {
                assert(seen@.to_set() =~= before.to_set().insert(key)) by {
                    before.lemma_push_to_set_commute(key);
                    assert(seen@ == before.push(key));
                }
                assert forall|i: int, j: int| 0 <= i < seen@.len() && 0 <= j < seen@.len() && i != j implies seen@[i]
                    != seen@[j] by {
                    if i < before.len() && j < before.len() {
                        assert(seen@[i] == before[i] && seen@[j] == before[j]);
                    } else if i < before.len() {
                        assert(seen@[i] == before[i]);
                        assert(before.contains(before[i]));
                    } else if j < before.len() {
                        assert(seen@[j] == before[j]);
                        assert(before.contains(before[j]));
                    }
                }
            }
        } else {
            proof {
                assert(seen@.to_set().contains(key));
                assert(seen@.to_set().insert(key) =~= seen@.to_set());
            }
        }
        k += 1;
    }
    proof {
        assert(rows.take(rows.len() as int) =~= rows);
        seen@.unique_seq_to_set();
        lemma_members_finite(rows);
    }
    Some(ServiceShape { prefill_rows, decode_rows, members: seen.len(), last_position })
}

} // verus!
