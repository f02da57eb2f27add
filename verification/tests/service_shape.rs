use staged_adapter::proposal::ReadyRows;
use staged_adapter::request::RequestState;
use staged_adapter::scheduler::{Allocation, Phase};
use staged_adapter::service::ServiceShape;
use staged_adapter::service_shape::planned_service_shape;

fn allocation(id: &str, sequence_id: u32, phase: Phase, rows: usize) -> Allocation {
    Allocation { request_id: id.to_owned(), sequence_id, phase, rows }
}

fn requests() -> Vec<(String, RequestState)> {
    let mut prompt = RequestState::new("prompt".to_owned(), vec![1; 100], 4, Some(0));
    prompt.prompt_issued = 40;
    let mut decoding = RequestState::new("decoding".to_owned(), vec![1; 10], 4, Some(1));
    decoding.prompt_issued = 10;
    decoding.prompt_cursor = 10;
    decoding.generated = 2;
    decoding.ready = Some(ReadyRows { phase: Phase::Decode, tokens: vec![5], position: 11, speculative_id: 0 });
    let waiting = RequestState::new("waiting".to_owned(), vec![1; 10], 4, Some(2));
    vec![
        ("prompt".to_owned(), prompt),
        ("decoding".to_owned(), decoding),
        ("waiting".to_owned(), waiting),
    ]
}

#[test]
fn a_mixed_plan_counts_rows_members_and_the_last_position() {
    let plan = vec![allocation("prompt", 0, Phase::Prefill, 24), allocation("decoding", 1, Phase::Decode, 1)];
    assert_eq!(
        planned_service_shape(&requests(), &plan),
        Some(ServiceShape { prefill_rows: 24, decode_rows: 1, members: 2, last_position: 63 }),
    );
}

#[test]
fn a_plan_for_an_unknown_request_has_no_shape() {
    let plan = vec![allocation("prompt", 0, Phase::Prefill, 24), allocation("gone", 7, Phase::Prefill, 3)];
    assert_eq!(planned_service_shape(&requests(), &plan), None);
}

#[test]
fn a_decode_with_nothing_ready_or_a_speculative_round_has_no_shape() {
    assert_eq!(planned_service_shape(&requests(), &[allocation("waiting", 2, Phase::Decode, 1)]), None);
    assert_eq!(planned_service_shape(&requests(), &[allocation("decoding", 1, Phase::Verify, 2)]), None);
}

#[test]
fn an_empty_plan_is_an_empty_shape() {
    assert_eq!(
        planned_service_shape(&requests(), &[]),
        Some(ServiceShape { prefill_rows: 0, decode_rows: 0, members: 0, last_position: 0 }),
    );
}

use staged_adapter::service_shape::{physical_shape, CapsuleOwner};

fn owner(sequence_id: u32, incarnation: u64, phase: Phase, position: u32) -> CapsuleOwner {
    CapsuleOwner { sequence_id, incarnation, phase, position }
}

#[test]
fn a_physical_batch_counts_distinct_members_once() {
    let rows = [
        owner(0, 1, Phase::Prefill, 10),
        owner(0, 1, Phase::Prefill, 11),
        owner(3, 1, Phase::Decode, 40),
        // The same sequence in a later incarnation is another member.
        owner(0, 2, Phase::Prefill, 2),
    ];
    assert_eq!(
        physical_shape(&rows),
        Some(ServiceShape { prefill_rows: 3, decode_rows: 1, members: 3, last_position: 40 }),
    );
}

#[test]
fn an_empty_or_speculative_physical_batch_has_no_shape() {
    assert_eq!(physical_shape(&[]), None);
    assert_eq!(
        physical_shape(&[owner(0, 1, Phase::Decode, 4), owner(1, 1, Phase::Replay, 5)]),
        None,
    );
}
