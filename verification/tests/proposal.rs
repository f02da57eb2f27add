//! A proposal's shape alone decides between a decode and a verification.
use staged_adapter::proposal::ready_from_proposal;
use staged_adapter::scheduler::Phase;

#[test]
fn proposal_shape_alone_selects_decode_or_atomic_verify() {
    let mut next = 7;
    let decode = ready_from_proposal(&mut next, vec![11], 42).unwrap();
    assert_eq!(decode.phase, Phase::Decode);
    assert_eq!(decode.speculative_id, 0);
    assert_eq!(next, 7);

    let verify = ready_from_proposal(&mut next, vec![11, 12], 43).unwrap();
    assert_eq!(verify.phase, Phase::Verify);
    assert_eq!(verify.speculative_id, 7);
    assert_eq!(next, 8);
    assert!(ready_from_proposal(&mut next, Vec::new(), 44).is_err());
}

#[test]
fn a_proposal_keeps_its_tokens_and_position() {
    let mut next = 1;
    let verify = ready_from_proposal(&mut next, vec![5, 6, 7], 9).unwrap();
    assert_eq!(verify.tokens, vec![5, 6, 7]);
    assert_eq!(verify.position, 9);
    assert_eq!(verify.speculative_id, 1);
    assert_eq!(next, 2);
}

#[test]
fn an_empty_proposal_is_refused_and_leaves_the_counter() {
    let mut next = 5;
    assert_eq!(
        ready_from_proposal(&mut next, Vec::new(), 1).unwrap_err(),
        "continuing tail decision has no proposal"
    );
    assert_eq!(next, 5);
}

#[test]
fn speculative_identity_zero_or_at_the_top_is_exhausted() {
    let mut zero = 0;
    assert_eq!(
        ready_from_proposal(&mut zero, vec![1, 2], 0).unwrap_err(),
        "speculative identity exhausted"
    );
    assert_eq!(zero, 0);
    let mut top = u64::MAX;
    assert_eq!(
        ready_from_proposal(&mut top, vec![1, 2], 0).unwrap_err(),
        "speculative identity exhausted"
    );
    assert_eq!(top, u64::MAX);
    // A plain decode needs no identity, even when none is left.
    let decode = ready_from_proposal(&mut zero, vec![1], 0).unwrap();
    assert_eq!(decode.phase, Phase::Decode);
}
