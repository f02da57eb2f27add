//! The progress of one admitted inference: how much of its prompt has been
//! issued and settled, what it has ready to decode, and how many of its
//! fragments are travelling.
use crate::proposal::ReadyRows;
use crate::scheduler::Phase;
use vstd::prelude::*;

verus! {

#[derive(Clone, Debug, PartialEq, Eq)]
pub struct RequestState {
    pub request_id: String,
    /// The prompt.
    pub tokens: Vec<i32>,
    /// Tokens the request may generate.
    pub max_tokens: u32,
    pub sequence_id: Option<u32>,
    /// Prompt rows the tail has settled.
    pub prompt_cursor: usize,
    /// Prompt rows issued into the pipeline.
    pub prompt_issued: usize,
    /// The rows a continuing sequence feeds next, once the tail sent them.
    pub ready: Option<ReadyRows>,
    /// Fragments of this request in flight.
    pub outstanding: u32,
    /// Tokens generated so far.
    pub generated: u32,
}

/// The phase a request may issue next when `limit` prompt fragments may
/// travel at once. A prompt's rows are all known, so a further fragment may
/// follow the first into the pipeline while fewer than `limit` are out. A
/// decode's next row is whatever the tail samples from this one, so it waits
/// until nothing of the request is travelling, however generous the limit.
pub open spec fn phase_within_spec(r: RequestState, limit: u32) -> Option<Phase> {
    if r.prompt_issued < r.tokens@.len() {
        if r.outstanding < limit {
            Some(Phase::Prefill)
        } else {
            None
        }
    } else if r.outstanding == 0 {
        match r.ready {
            Some(ready) => Some(ready.phase),
            None => None,
        }
    } else {
        None
    }
}

impl RequestState {
    /// A request with nothing issued, settled or generated yet.
    pub fn new(request_id: String, tokens: Vec<i32>, max_tokens: u32, sequence_id: Option<u32>) -> (r:
        Self)
        ensures
            r.request_id@ == request_id@,
            r.tokens@ == tokens@,
            r.max_tokens == max_tokens,
            r.sequence_id == sequence_id,
            r.prompt_cursor == 0,
            r.prompt_issued == 0,
            r.ready is None,
            r.outstanding == 0,
            r.generated == 0,
    {
        RequestState {
            request_id,
            tokens,
            max_tokens,
            sequence_id,
            prompt_cursor: 0,
            prompt_issued: 0,
            ready: None,
            outstanding: 0,
            generated: 0,
        }
    }

    pub fn phase_within(&self, limit: u32) -> (r: Option<Phase>)
        ensures
            r == phase_within_spec(*self, limit),
    {
        if self.prompt_issued < self.tokens.len() {
            if self.outstanding < limit {
                Some(Phase::Prefill)
            } else {
                None
            }
        } else if self.outstanding == 0 {
            match &self.ready {
                Some(ready) => Some(ready.phase),
                None => None,
            }
        } else {
            None
        }
    }
}

} // verus!
