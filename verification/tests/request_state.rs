//! Prompt fragments may overlap in flight; a decode waits for its answer.
use staged_adapter::proposal::ReadyRows;
use staged_adapter::request::RequestState;
use staged_adapter::scheduler::Phase;

fn request_state(tokens: Vec<i32>) -> RequestState {
    RequestState::new("request".to_owned(), tokens, 16, Some(0))
}

/// A prompt with a fragment in flight can issue the next one; a decode cannot.
///
/// A prompt's tokens are all known, so a second chunk can follow the first
/// into the pipeline. A decode's next row is whatever the tail samples from
/// this one, so it must wait however generous the limit is.
#[test]
fn a_prompt_may_have_several_fragments_in_flight_and_a_decode_may_not() {
    let mut prompt = request_state(vec![1; 1000]);
    // Nothing issued: runnable at any limit.
    assert_eq!(prompt.phase_within(1), Some(Phase::Prefill));
    assert_eq!(prompt.phase_within(4), Some(Phase::Prefill));

    // One fragment of 512 rows is out.
    prompt.prompt_issued = 512;
    prompt.outstanding = 1;
    assert_eq!(prompt.phase_within(1), None, "one fragment is the old behaviour");
    assert_eq!(
        prompt.phase_within(2),
        Some(Phase::Prefill),
        "the rest of a known prompt does not need the first chunk back",
    );

    // Two out, and the limit is two.
    prompt.prompt_issued = 1000;
    prompt.outstanding = 2;
    assert_eq!(prompt.phase_within(2), None, "nothing left to issue anyway");

    // A decode is capped at one however generous the limit.
    let mut decode = request_state(vec![1; 8]);
    decode.prompt_issued = 8;
    decode.prompt_cursor = 8;
    decode.ready = Some(ReadyRows {
        phase: Phase::Decode,
        tokens: vec![7],
        position: 8,
        speculative_id: 0,
    });
    assert_eq!(decode.phase_within(8), Some(Phase::Decode));
    decode.outstanding = 1;
    assert_eq!(
        decode.phase_within(8),
        None,
        "the next token is not known until this one is sampled",
    );
}

/// The settled cursor trails the issued one and never passes it.
#[test]
fn the_settled_prompt_cursor_never_passes_the_issued_one() {
    let mut prompt = request_state(vec![1; 1000]);
    prompt.prompt_issued = 512;
    prompt.outstanding = 1;
    prompt.prompt_issued += 488;
    prompt.outstanding += 1;
    assert_eq!(prompt.prompt_issued, 1000);

    // Settlement of the first fragment.
    prompt.prompt_cursor += 512;
    prompt.outstanding -= 1;
    assert!(prompt.prompt_cursor <= prompt.prompt_issued);
    assert_eq!(prompt.phase_within(4), None, "the prompt is fully issued");

    // And of the second.
    prompt.prompt_cursor += 488;
    prompt.outstanding -= 1;
    assert_eq!(prompt.prompt_cursor, prompt.prompt_issued);
    assert_eq!(prompt.outstanding, 0);
    // Prompt done and no decode row yet: nothing to do until the tail sends one.
    assert_eq!(prompt.phase_within(4), None);
}

#[test]
fn a_verification_ready_row_is_issued_as_its_own_phase() {
    let mut verify = request_state(vec![1; 4]);
    verify.prompt_issued = 4;
    verify.prompt_cursor = 4;
    verify.ready = Some(ReadyRows {
        phase: Phase::Verify,
        tokens: vec![7, 8],
        position: 4,
        speculative_id: 3,
    });
    assert_eq!(verify.phase_within(1), Some(Phase::Verify));
    assert_eq!(verify.phase_within(0), Some(Phase::Verify));
}

#[test]
fn a_zero_fragment_limit_issues_no_prompt() {
    let prompt = request_state(vec![1; 4]);
    assert_eq!(prompt.phase_within(0), None);
}
