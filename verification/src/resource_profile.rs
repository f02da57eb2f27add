//! The adapter's resource profile: the limits a load declares, checked
//! against each other and against the stores that retain requests,
//! completions, edges and receipts before any work is admitted.
use crate::text::{decimal, decimal_text};
use vstd::prelude::*;
use vstd::string::StringExecFns;

verus! {

pub const RESOURCE_PROFILE_VERSION: u16 = 1;

#[derive(Clone, Debug, PartialEq, Eq)]
pub struct ResourceProfile {
    pub version: u16,
    pub max_requests: u32,
    pub max_request_retained_bytes: u64,
    pub max_input_tokens: u64,
    pub max_request_bytes: u64,
    pub max_output_tokens_per_request: u32,
    pub max_output_tokens: u64,
    pub max_physical_result_bytes: u64,
    pub max_completion_payload_bytes: u64,
    pub max_completion_retained_bytes: u64,
    pub max_edge_retained_bytes: u64,
    pub max_receipt_retained_bytes: u64,
}

/// Read-only capacity of one retained store: the adapter owns the profile
/// and its interpretation; the store only reports its count and byte usage.
#[derive(Clone, Copy, Debug, PartialEq, Eq)]
pub struct ResourceStorageSnapshot {
    pub count_limit: usize,
    pub retained_count: usize,
    pub byte_limit: usize,
    pub retained_bytes: usize,
}

#[derive(Clone, Copy, Debug, PartialEq, Eq)]
pub struct RuntimeResourceSnapshot {
    pub edge: ResourceStorageSnapshot,
    pub receipt: ResourceStorageSnapshot,
}

/// What the completion store reports of its occupancy.
#[derive(Clone, Copy, Debug, PartialEq, Eq)]
pub struct CompletionStorageSnapshot {
    pub capacity: usize,
    pub queue_capacity: usize,
    pub byte_limit: Option<usize>,
    pub retained_count: usize,
    pub retained_bytes: usize,
    pub queued_count: usize,
    pub reserved_queue_slots: usize,
    pub queue_backing_bytes: usize,
    pub closed: bool,
}

/// The aggregate request admission limit a valid profile grants.
#[derive(Clone, Copy, Debug, PartialEq, Eq)]
pub struct RequestCost {
    pub requests: usize,
    pub bytes: usize,
    pub prompt_tokens: usize,
    pub output_tokens: usize,
}

#[derive(Clone, Copy, Debug, PartialEq, Eq)]
pub struct ValidatedResourceProfile {
    pub request_limit: RequestCost,
}

/// Whether one store has room for `count` more records of `bytes` in all.
pub open spec fn storage_outcome(
    name: Seq<char>,
    count: nat,
    bytes: nat,
    actual: ResourceStorageSnapshot,
) -> Result<(), Seq<char>> {
    if actual.retained_count > actual.count_limit {
        Err(name + " retained count exceeds its limit"@)
    } else if actual.retained_bytes > actual.byte_limit {
        Err(name + " retained bytes exceed their limit"@)
    } else {
        let count_left = (actual.count_limit - actual.retained_count) as nat;
        let bytes_left = (actual.byte_limit - actual.retained_bytes) as nat;
        if count > count_left {
            Err(
                name + " retained count is insufficient: need "@ + decimal(count) + ", available "@
                    + decimal(count_left),
            )
        } else if bytes > bytes_left {
            Err(
                name + " retained bytes are insufficient: need "@ + decimal(bytes) + ", available "@
                    + decimal(bytes_left),
            )
        } else {
            Ok(())
        }
    }
}

/// Whether the completion store, which must have a byte limit, has room.
pub open spec fn completion_outcome(
    count: nat,
    bytes: nat,
    actual: CompletionStorageSnapshot,
) -> Result<(), Seq<char>> {
    match actual.byte_limit {
        None => Err("completion retained byte limit is not configured"@),
        Some(limit) => storage_outcome(
            "completion"@,
            count,
            bytes,
            ResourceStorageSnapshot {
                count_limit: actual.capacity,
                retained_count: actual.retained_count,
                byte_limit: limit,
                retained_bytes: actual.retained_bytes,
            },
        ),
    }
}

pub open spec fn fits_usize(x: u64) -> bool {
    x <= usize::MAX
}

/// Some limit of the profile is zero.
pub open spec fn has_zero_limit(p: ResourceProfile) -> bool {
    ||| p.max_requests == 0
    ||| p.max_request_retained_bytes == 0
    ||| p.max_input_tokens == 0
    ||| p.max_request_bytes == 0
    ||| p.max_output_tokens_per_request == 0
    ||| p.max_output_tokens == 0
    ||| p.max_physical_result_bytes == 0
    ||| p.max_completion_payload_bytes == 0
    ||| p.max_completion_retained_bytes == 0
    ||| p.max_edge_retained_bytes == 0
    ||| p.max_receipt_retained_bytes == 0
}

/// The physical result, completion payload, completion store and edge
/// store byte limits do not nest.
pub open spec fn byte_limits_inconsistent(p: ResourceProfile) -> bool {
    ||| p.max_physical_result_bytes > p.max_completion_payload_bytes
    ||| p.max_completion_payload_bytes > p.max_completion_retained_bytes
    ||| p.max_completion_payload_bytes > p.max_edge_retained_bytes
}

/// The request limit a valid profile grants.
pub open spec fn request_limit(p: ResourceProfile) -> RequestCost {
    RequestCost {
        requests: p.max_requests as usize,
        bytes: p.max_request_retained_bytes as usize,
        prompt_tokens: p.max_input_tokens as usize,
        output_tokens: p.max_output_tokens as usize,
    }
}

/// Whether a profile can be loaded beside the stores as they stand: its
/// version, its own consistency, every limit in the platform's range, and
/// room in the completion, edge and receipt stores for every request.
pub open spec fn preload_outcome(
    p: ResourceProfile,
    completion: CompletionStorageSnapshot,
    runtime: RuntimeResourceSnapshot,
) -> Result<RequestCost, Seq<char>> {
    let requests = p.max_requests as nat;
    if p.version != RESOURCE_PROFILE_VERSION {
        Err("resource profile version "@ + decimal(p.version as nat) + " is unsupported"@)
    } else if has_zero_limit(p) {
        Err("resource profile fields must be positive"@)
    } else if p.max_request_bytes > p.max_request_retained_bytes {
        Err("one request exceeds the aggregate request byte limit"@)
    } else if p.max_requests * p.max_output_tokens_per_request > u64::MAX {
        Err("resource profile output token reservation overflows"@)
    } else if p.max_requests * p.max_output_tokens_per_request > p.max_output_tokens {
        Err("aggregate output token limit cannot cover every request"@)
    } else if byte_limits_inconsistent(p) {
        Err("physical result, completion and edge byte limits are inconsistent"@)
    } else if !fits_usize(p.max_request_retained_bytes) {
        Err("resource profile request bytes exceed platform range"@)
    } else if !fits_usize(p.max_input_tokens) {
        Err("resource profile input tokens exceed platform range"@)
    } else if !fits_usize(p.max_output_tokens) {
        Err("resource profile output tokens exceed platform range"@)
    } else if !fits_usize(p.max_request_bytes) {
        Err("resource profile request bytes exceed platform range"@)
    } else if !fits_usize(p.max_completion_retained_bytes) {
        Err("resource profile completion bytes exceed platform range"@)
    } else if completion_outcome(requests, p.max_completion_retained_bytes as nat, completion) is Err {
        Err(completion_outcome(requests, p.max_completion_retained_bytes as nat, completion)->Err_0)
    } else if !fits_usize(p.max_edge_retained_bytes) {
        Err("resource profile edge bytes exceed platform range"@)
    } else if storage_outcome("edge"@, requests, p.max_edge_retained_bytes as nat, runtime.edge) is Err {
        Err(storage_outcome("edge"@, requests, p.max_edge_retained_bytes as nat, runtime.edge)->Err_0)
    } else if !fits_usize(p.max_receipt_retained_bytes) {
        Err("resource profile receipt bytes exceed platform range"@)
    } else if storage_outcome("receipt"@, requests, p.max_receipt_retained_bytes as nat, runtime.receipt) is Err {
        Err(storage_outcome("receipt"@, requests, p.max_receipt_retained_bytes as nat, runtime.receipt)->Err_0)
    } else {
        Ok(request_limit(p))
    }
}

fn usize_text(n: usize) -> (s: String)
    ensures
        s@ == decimal(n as nat),
{
    decimal_text(n as u128)
}

/// "`name` `tail`".
fn named(name: &str, tail: &str) -> (s: String)
    ensures
        s@ == name@ + tail@,
{
    let mut s = name.to_owned();
    s.append(tail);
    s
}

/// "`name` `what` `need`, available `available`".
fn shortfall(name: &str, what: &str, need: usize, available: usize) -> (s: String)
    ensures
        s@ == name@ + what@ + decimal(need as nat) + ", available "@ + decimal(available as nat),
{
    let mut s = named(name, what);
    s.append(usize_text(need).as_str());
    s.append(", available ");
    s.append(usize_text(available).as_str());
    s
}

fn validate_runtime_storage(
    name: &str,
    required_count: usize,
    required_bytes: usize,
    actual: ResourceStorageSnapshot,
) -> (r: Result<(), String>)
    ensures
        match r {
            Ok(()) => storage_outcome(name@, required_count as nat, required_bytes as nat, actual) is Ok,
            Err(e) => storage_outcome(name@, required_count as nat, required_bytes as nat, actual)
                == Err::<(), Seq<char>>(e@),
        },
{
    if actual.retained_count > actual.count_limit {
        return Err(named(name, " retained count exceeds its limit"));
    }
    if actual.retained_bytes > actual.byte_limit {
        return Err(named(name, " retained bytes exceed their limit"));
    }
    let available_count = actual.count_limit - actual.retained_count;
    let available_bytes = actual.byte_limit - actual.retained_bytes;
    if required_count > available_count {
        return Err(shortfall(name, " retained count is insufficient: need ", required_count, available_count));
    }
    if required_bytes > available_bytes {
        return Err(shortfall(name, " retained bytes are insufficient: need ", required_bytes, available_bytes));
    }
    Ok(())
}

fn validate_completion_storage(
    required_count: usize,
    required_bytes: usize,
    actual: CompletionStorageSnapshot,
) -> (r: Result<(), String>)
    ensures
        match r {
            Ok(()) => completion_outcome(required_count as nat, required_bytes as nat, actual) is Ok,
            Err(e) => completion_outcome(required_count as nat, required_bytes as nat, actual)
                == Err::<(), Seq<char>>(e@),
        },
{
    let byte_limit = match actual.byte_limit {
        Some(b) => b,
        None => {
            return Err("completion retained byte limit is not configured".to_owned());
        },
    };
    validate_runtime_storage(
        "completion",
        required_count,
        required_bytes,
        ResourceStorageSnapshot {
            count_limit: actual.capacity,
            retained_count: actual.retained_count,
            byte_limit,
            retained_bytes: actual.retained_bytes,
        },
    )
}

fn to_usize(x: u64) -> (r: Option<usize>)
    ensures
        r matches Some(v) ==> fits_usize(x) && v == x,
        r is None ==> !fits_usize(x),
{
    if x <= usize::MAX as u64 {
        Some(x as usize)
    } else {
        None
    }
}

impl ResourceProfile {
    /// Checks the profile before a load: see `preload_outcome`.
    pub fn validate_preload(
        &self,
        completion: CompletionStorageSnapshot,
        runtime: RuntimeResourceSnapshot,
    ) -> (r: Result<ValidatedResourceProfile, String>)
        ensures
            match r {
                Ok(v) => preload_outcome(*self, completion, runtime) == Ok::<RequestCost, Seq<char>>(
                    v.request_limit,
                ),
                Err(e) => preload_outcome(*self, completion, runtime) == Err::<RequestCost, Seq<char>>(
                    e@,
                ),
            },
    {
        if self.version != RESOURCE_PROFILE_VERSION {
            let mut message = "resource profile version ".to_owned();
            message.append(decimal_text(self.version as u128).as_str());
            message.append(" is unsupported");
            return Err(message);
        }
        if self.max_requests == 0 || self.max_request_retained_bytes == 0 || self.max_input_tokens == 0
            || self.max_request_bytes == 0 || self.max_output_tokens_per_request == 0
            || self.max_output_tokens == 0 || self.max_physical_result_bytes == 0
            || self.max_completion_payload_bytes == 0 || self.max_completion_retained_bytes == 0
            || self.max_edge_retained_bytes == 0 || self.max_receipt_retained_bytes == 0 {
            return Err("resource profile fields must be positive".to_owned());
        }
        if self.max_request_bytes > self.max_request_retained_bytes {
            return Err("one request exceeds the aggregate request byte limit".to_owned());
        }
        let reserved_output = match (self.max_requests as u64).checked_mul(
            self.max_output_tokens_per_request as u64,
        ) {
            Some(v) => v,
            None => {
                return Err("resource profile output token reservation overflows".to_owned());
            },
        };
        if reserved_output > self.max_output_tokens {
            return Err("aggregate output token limit cannot cover every request".to_owned());
        }
        if self.max_physical_result_bytes > self.max_completion_payload_bytes
            || self.max_completion_payload_bytes > self.max_completion_retained_bytes
            || self.max_completion_payload_bytes > self.max_edge_retained_bytes {
            return Err("physical result, completion and edge byte limits are inconsistent".to_owned());
        }
        let requests = self.max_requests as usize;
        let bytes = match to_usize(self.max_request_retained_bytes) {
            Some(v) => v,
            None => {
                return Err("resource profile request bytes exceed platform range".to_owned());
            },
        };
        let prompt_tokens = match to_usize(self.max_input_tokens) {
            Some(v) => v,
            None => {
                return Err("resource profile input tokens exceed platform range".to_owned());
            },
        };
        let output_tokens = match to_usize(self.max_output_tokens) {
            Some(v) => v,
            None => {
                return Err("resource profile output tokens exceed platform range".to_owned());
            },
        };
        if to_usize(self.max_request_bytes).is_none() {
            return Err("resource profile request bytes exceed platform range".to_owned());
        }
        let completion_bytes = match to_usize(self.max_completion_retained_bytes) {
            Some(v) => v,
            None => {
                return Err("resource profile completion bytes exceed platform range".to_owned());
            },
        };
        match validate_completion_storage(requests, completion_bytes, completion) {
            Ok(()) => {},
            Err(e) => {
                return Err(e);
            },
        }
        let edge_bytes = match to_usize(self.max_edge_retained_bytes) {
            Some(v) => v,
            None => {
                return Err("resource profile edge bytes exceed platform range".to_owned());
            },
        };
        match validate_runtime_storage("edge", requests, edge_bytes, runtime.edge) {
            Ok(()) => {},
            Err(e) => {
                return Err(e);
            },
        }
        let receipt_bytes = match to_usize(self.max_receipt_retained_bytes) {
            Some(v) => v,
            None => {
                return Err("resource profile receipt bytes exceed platform range".to_owned());
            },
        };
        match validate_runtime_storage("receipt", requests, receipt_bytes, runtime.receipt) {
            Ok(()) => {},
            Err(e) => {
                return Err(e);
            },
        }
        Ok(
            ValidatedResourceProfile {
                request_limit: RequestCost { requests, bytes, prompt_tokens, output_tokens },
            },
        )
    }

    /// READY must report exactly the profile's physical result bound.
    pub fn validate_ready_bound(&self, actual: u64) -> (r: Result<(), String>)
        ensures
            r is Ok <==> actual == self.max_physical_result_bytes,
            r matches Err(e) ==> e@ == "resource profile physical result mismatch: profile="@
                + decimal(self.max_physical_result_bytes as nat) + ", READY="@ + decimal(
                actual as nat,
            ),
    {
        if actual != self.max_physical_result_bytes {
            let mut message = "resource profile physical result mismatch: profile=".to_owned();
            message.append(decimal_text(self.max_physical_result_bytes as u128).as_str());
            message.append(", READY=");
            message.append(decimal_text(actual as u128).as_str());
            return Err(message);
        }
        Ok(())
    }
}

/// A profile accepted before a load is consistent and fits the stores: every
/// limit is positive, one request fits the aggregate, the output budget
/// covers every request at its own limit, the byte limits nest, and each
/// store has room for every request and its bytes.
pub proof fn law_accepted_profile_fits(
    p: ResourceProfile,
    completion: CompletionStorageSnapshot,
    runtime: RuntimeResourceSnapshot,
)
    requires
        preload_outcome(p, completion, runtime) is Ok,
    ensures
        !has_zero_limit(p),
        p.max_request_bytes <= p.max_request_retained_bytes,
        p.max_requests * p.max_output_tokens_per_request <= p.max_output_tokens,
        p.max_physical_result_bytes <= p.max_completion_payload_bytes,
        p.max_completion_payload_bytes <= p.max_completion_retained_bytes,
        p.max_completion_payload_bytes <= p.max_edge_retained_bytes,
        completion.byte_limit is Some,
        completion.retained_count + p.max_requests <= completion.capacity,
        completion.retained_bytes + p.max_completion_retained_bytes <= completion.byte_limit->0,
        runtime.edge.retained_count + p.max_requests <= runtime.edge.count_limit,
        runtime.edge.retained_bytes + p.max_edge_retained_bytes <= runtime.edge.byte_limit,
        runtime.receipt.retained_count + p.max_requests <= runtime.receipt.count_limit,
        runtime.receipt.retained_bytes + p.max_receipt_retained_bytes <= runtime.receipt.byte_limit,
{
}

/// An accepted profile grants exactly the aggregate limits it declares: as
/// many requests as `max_requests`, the aggregate request bytes, input
/// tokens and output tokens — the aggregate output budget, not one
/// request's share of it.
pub proof fn law_accepted_profile_grants_its_limits(
    p: ResourceProfile,
    completion: CompletionStorageSnapshot,
    runtime: RuntimeResourceSnapshot,
)
    requires
        preload_outcome(p, completion, runtime) is Ok,
    ensures
        preload_outcome(p, completion, runtime)->Ok_0.requests == p.max_requests,
        preload_outcome(p, completion, runtime)->Ok_0.bytes == p.max_request_retained_bytes,
        preload_outcome(p, completion, runtime)->Ok_0.prompt_tokens == p.max_input_tokens,
        preload_outcome(p, completion, runtime)->Ok_0.output_tokens == p.max_output_tokens,
{
}

} // verus!
