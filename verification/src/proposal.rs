//! The rows a continuing sequence feeds next, built from the tail's
//! proposal: one token is a plain decode, several are one speculative
//! verification that must be issued as a single transaction.
use crate::scheduler::Phase;
use vstd::prelude::*;

verus! {

/// Input rows a request has ready for its next batch.
#[derive(Clone, Debug, PartialEq, Eq)]
pub struct ReadyRows {
    pub phase: Phase,
    pub tokens: Vec<i32>,
    /// Position of the first row.
    pub position: u32,
    /// Identity of a speculative verification; zero for a plain decode.
    pub speculative_id: u64,
}

pub open spec fn empty_proposal_message() -> Seq<char> {
    "continuing tail decision has no proposal"@
}

pub open spec fn exhausted_message() -> Seq<char> {
    "speculative identity exhausted"@
}

/// Turns a proposal into ready rows. A multi-token proposal takes the next
/// speculative identity, which starts above zero and is never reused; the
/// counter moves only when a verification is built.
pub fn ready_from_proposal(next_speculative_id: &mut u64, proposal: Vec<i32>, position: u32) -> (r:
    Result<ReadyRows, String>)
    ensures
        proposal@.len() == 0 ==> (r matches Err(e) && e@ == empty_proposal_message()),
        proposal@.len() == 1 ==> (r matches Ok(ready) && ready.phase == Phase::Decode
            && ready.speculative_id == 0),
        proposal@.len() > 1 && (*old(next_speculative_id) == 0 || *old(next_speculative_id)
            == u64::MAX) ==> (r matches Err(e) && e@ == exhausted_message()),
        proposal@.len() > 1 && 0 < *old(next_speculative_id) < u64::MAX ==> (r matches Ok(ready)
            && ready.phase == Phase::Verify && ready.speculative_id == *old(next_speculative_id)),
        r matches Ok(ready) ==> ready.tokens@ == proposal@ && ready.position == position,
        *final(next_speculative_id) == if r is Ok && proposal@.len() > 1 {
            *old(next_speculative_id) + 1
        } else {
            *old(next_speculative_id) as int
        },
{
    if proposal.len() == 0 {
        return Err("continuing tail decision has no proposal".to_owned());
    }
    let speculative = proposal.len() > 1;
    let speculative_id = if speculative {
        let value = *next_speculative_id;
        if value == 0 {
            return Err("speculative identity exhausted".to_owned());
        }
        *next_speculative_id = match value.checked_add(1) {
            Some(next) => next,
            None => {
                return Err("speculative identity exhausted".to_owned());
            },
        };
        value
    } else {
        0
    };
    Ok(
        ReadyRows {
            phase: if speculative {
                Phase::Verify
            } else {
                Phase::Decode
            },
            tokens: proposal,
            position,
            speculative_id,
        },
    )
}

} // verus!
