use staged_adapter::workload::expected_prefill_rows;

#[test]
fn each_case_declares_its_own_prompt_rows() {
    assert_eq!(expected_prefill_rows("ordinary-2", "one"), 7);
    assert_eq!(expected_prefill_rows("checkpoint-2", "partial"), 3);
    assert_eq!(expected_prefill_rows("checkpoint-4", "fence-probe"), 1);
    assert_eq!(expected_prefill_rows("mixed-owner-4", "release-owner-a"), 1);
    assert_eq!(expected_prefill_rows("mixed-consumer-2", "release-owner-b"), 1);
}

#[test]
fn a_request_name_is_looked_up_within_its_case() {
    // "partial" belongs to the checkpoint cases; the same name in another
    // case is not the same request.
    assert_eq!(expected_prefill_rows("checkpoint-4", "partial"), 3);
    assert_eq!(expected_prefill_rows("mixed-consumer-4", "release-owner-b"), 1);
}
