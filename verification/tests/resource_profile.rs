//! A resource profile is checked against itself and the retained stores.
use staged_adapter::resource_profile::{
    CompletionStorageSnapshot, ResourceProfile, ResourceStorageSnapshot, RuntimeResourceSnapshot,
    RESOURCE_PROFILE_VERSION,
};

fn fixture_resource_profile() -> ResourceProfile {
    ResourceProfile {
        version: RESOURCE_PROFILE_VERSION,
        max_requests: 1,
        max_request_retained_bytes: 1 << 20,
        max_input_tokens: 4096,
        max_request_bytes: 1 << 19,
        max_output_tokens_per_request: 2048,
        max_output_tokens: 2048,
        max_physical_result_bytes: 33_554_432,
        max_completion_payload_bytes: 64 << 20,
        max_completion_retained_bytes: 64 << 20,
        max_edge_retained_bytes: 64 << 20,
        max_receipt_retained_bytes: 1 << 20,
    }
}

fn completion(count: usize, bytes: usize) -> CompletionStorageSnapshot {
    CompletionStorageSnapshot {
        capacity: count,
        queue_capacity: count,
        byte_limit: Some(bytes),
        retained_count: 0,
        retained_bytes: 0,
        queued_count: 0,
        reserved_queue_slots: 0,
        queue_backing_bytes: 0,
        closed: false,
    }
}

fn runtime(edge_count: usize, edge_bytes: usize) -> RuntimeResourceSnapshot {
    RuntimeResourceSnapshot {
        edge: ResourceStorageSnapshot {
            count_limit: edge_count,
            retained_count: 0,
            byte_limit: edge_bytes,
            retained_bytes: 0,
        },
        receipt: ResourceStorageSnapshot {
            count_limit: 1,
            retained_count: 0,
            byte_limit: 1 << 20,
            retained_bytes: 0,
        },
    }
}

#[test]
fn exact_store_limits_are_accepted_and_minus_one_is_rejected() {
    let profile = fixture_resource_profile();
    assert!(
        profile
            .validate_preload(completion(1, 64 << 20), runtime(1, 64 << 20))
            .is_ok()
    );
    assert!(
        profile
            .validate_preload(completion(0, 64 << 20), runtime(1, 64 << 20))
            .is_err()
    );
    assert!(
        profile
            .validate_preload(completion(1, (64 << 20) - 1), runtime(1, 64 << 20))
            .is_err()
    );
    assert!(
        profile
            .validate_preload(completion(1, 64 << 20), runtime(0, 64 << 20))
            .is_err()
    );
    assert!(
        profile
            .validate_preload(completion(1, 64 << 20), runtime(1, (64 << 20) - 1))
            .is_err()
    );
    let mut receipt_short = runtime(1, 64 << 20);
    receipt_short.receipt.byte_limit -= 1;
    assert!(
        profile
            .validate_preload(completion(1, 64 << 20), receipt_short)
            .is_err()
    );
}

#[test]
fn version_output_reservation_and_physical_payload_fail_closed() {
    let mut profile = fixture_resource_profile();
    profile.max_output_tokens = 2047;
    assert!(
        profile
            .validate_preload(completion(1, 64 << 20), runtime(1, 64 << 20))
            .is_err()
    );
    let mut profile = fixture_resource_profile();
    profile.version += 1;
    assert!(
        profile
            .validate_preload(completion(1, 64 << 20), runtime(1, 64 << 20))
            .is_err()
    );
    let mut profile = fixture_resource_profile();
    profile.max_completion_payload_bytes = profile.max_physical_result_bytes - 1;
    assert!(
        profile
            .validate_preload(completion(1, 64 << 20), runtime(1, 64 << 20))
            .is_err()
    );
}

#[test]
fn a_valid_profile_grants_its_request_limits() {
    let profile = fixture_resource_profile();
    let validated = profile
        .validate_preload(completion(1, 64 << 20), runtime(1, 64 << 20))
        .unwrap();
    assert_eq!(validated.request_limit.requests, 1);
    assert_eq!(validated.request_limit.bytes, 1 << 20);
    assert_eq!(validated.request_limit.prompt_tokens, 4096);
    assert_eq!(validated.request_limit.output_tokens, 2048);
}

#[test]
fn each_refusal_names_its_reason() {
    let mut profile = fixture_resource_profile();
    profile.version = 7;
    assert_eq!(
        profile.validate_preload(completion(1, 64 << 20), runtime(1, 64 << 20)).unwrap_err(),
        "resource profile version 7 is unsupported"
    );
    let mut profile = fixture_resource_profile();
    profile.max_receipt_retained_bytes = 0;
    assert_eq!(
        profile.validate_preload(completion(1, 64 << 20), runtime(1, 64 << 20)).unwrap_err(),
        "resource profile fields must be positive"
    );
    let mut profile = fixture_resource_profile();
    profile.max_request_bytes = profile.max_request_retained_bytes + 1;
    assert_eq!(
        profile.validate_preload(completion(1, 64 << 20), runtime(1, 64 << 20)).unwrap_err(),
        "one request exceeds the aggregate request byte limit"
    );
    let mut profile = fixture_resource_profile();
    profile.max_requests = 2;
    profile.max_output_tokens_per_request = u32::MAX;
    profile.max_output_tokens = u64::MAX;
    assert_eq!(
        profile.validate_preload(completion(1, 64 << 20), runtime(1, 64 << 20)).unwrap_err(),
        "completion retained count is insufficient: need 2, available 1"
    );
    let mut profile = fixture_resource_profile();
    profile.max_output_tokens = 2047;
    assert_eq!(
        profile.validate_preload(completion(1, 64 << 20), runtime(1, 64 << 20)).unwrap_err(),
        "aggregate output token limit cannot cover every request"
    );
    let mut profile = fixture_resource_profile();
    profile.max_physical_result_bytes = profile.max_completion_payload_bytes + 1;
    assert_eq!(
        profile.validate_preload(completion(1, 64 << 20), runtime(1, 64 << 20)).unwrap_err(),
        "physical result, completion and edge byte limits are inconsistent"
    );
    let profile = fixture_resource_profile();
    let mut unlimited = completion(1, 64 << 20);
    unlimited.byte_limit = None;
    assert_eq!(
        profile.validate_preload(unlimited, runtime(1, 64 << 20)).unwrap_err(),
        "completion retained byte limit is not configured"
    );
    assert_eq!(
        profile.validate_preload(completion(0, 64 << 20), runtime(1, 64 << 20)).unwrap_err(),
        "completion retained count is insufficient: need 1, available 0"
    );
    assert_eq!(
        profile.validate_preload(completion(1, 100), runtime(1, 64 << 20)).unwrap_err(),
        "completion retained bytes are insufficient: need 67108864, available 100"
    );
    let mut crowded = runtime(1, 64 << 20);
    crowded.edge.retained_count = 2;
    assert_eq!(
        profile.validate_preload(completion(1, 64 << 20), crowded).unwrap_err(),
        "edge retained count exceeds its limit"
    );
    let mut heavy = runtime(1, 64 << 20);
    heavy.receipt.retained_bytes = heavy.receipt.byte_limit + 1;
    assert_eq!(
        profile.validate_preload(completion(1, 64 << 20), heavy).unwrap_err(),
        "receipt retained bytes exceed their limit"
    );
}

#[test]
fn ready_must_report_the_profile_bound_exactly() {
    let profile = fixture_resource_profile();
    assert_eq!(profile.validate_ready_bound(33_554_432), Ok(()));
    assert_eq!(
        profile.validate_ready_bound(33_554_431).unwrap_err(),
        "resource profile physical result mismatch: profile=33554432, READY=33554431"
    );
}
