//! Speculative rounds and equal-width (recurrent) planning.
use staged_adapter::scheduler::{Demand, Phase, Scheduler, SchedulerError};

fn demand(sequence_id: u32, phase: Phase, rows: usize) -> Demand {
    Demand {
        request_id: format!("request-{sequence_id}"),
        sequence_id,
        compatibility: "completion|tokens|no-lora".into(),
        phase,
        available_rows: rows,
        atomic: matches!(phase, Phase::Verify | Phase::Replay),
    }
}

#[test]
fn speculative_verify_is_allocated_as_one_physical_transaction() {
    let mut scheduler = Scheduler::new();
    let demands = vec![demand(0, Phase::Verify, 5), demand(1, Phase::Prefill, 20)];
    let plan = scheduler.plan(&demands, 10).unwrap();
    assert_eq!(plan.last().unwrap().phase, Phase::Verify);
    assert_eq!(plan.last().unwrap().rows, 5);
    assert_eq!(plan[0].phase, Phase::Prefill);
    assert_eq!(plan[0].rows, 5);
    assert_eq!(
        scheduler.plan(&[demand(0, Phase::Verify, 9)], 8),
        Err(SchedulerError::AtomicDemandExceedsCapacity)
    );
}

#[test]
fn atomic_group_trails_ordinary_rows_in_the_same_ubatch() {
    let mut scheduler = Scheduler::new();
    let demands = vec![
        demand(0, Phase::Verify, 5),
        demand(1, Phase::Prefill, 20),
        demand(2, Phase::Decode, 1),
    ];
    let mixed = scheduler
        .plan_with_physical_capacity(&demands, 16, 12, false, 10, false)
        .unwrap();
    assert_eq!(mixed.last().unwrap().phase, Phase::Verify);
    assert_eq!(mixed.last().unwrap().rows, 5);
    assert!(
        mixed
            .iter()
            .all(|allocation| allocation.phase != Phase::Decode)
    );
    assert!(
        mixed
            .iter()
            .any(|allocation| allocation.phase == Phase::Prefill)
    );
    assert_eq!(
        mixed
            .iter()
            .map(|allocation| allocation.rows)
            .sum::<usize>(),
        10
    );
    assert!(mixed.iter().all(|allocation| allocation.rows == 5));
}

#[test]
fn one_generation_round_batches_multiple_verify_sequences() {
    let mut scheduler = Scheduler::new();
    let demands: Vec<_> = (0..10).map(|id| demand(id, Phase::Verify, 4)).collect();
    let plan = scheduler
        .plan_with_physical_capacity(&demands, 64, 64, true, 10, false)
        .unwrap();
    assert_eq!(plan.len(), 10);
    assert_eq!(plan.iter().map(|row| row.rows).sum::<usize>(), 40);
    assert!(
        plan.iter()
            .all(|row| row.phase == Phase::Verify && row.rows == 4)
    );
}

#[test]
fn recurrent_mixed_generation_round_is_one_contiguous_ubatch() {
    let mut scheduler = Scheduler::new();
    let demands = vec![
        demand(0, Phase::Verify, 4),
        demand(1, Phase::Prefill, 20),
        demand(2, Phase::Verify, 4),
        demand(3, Phase::Prefill, 20),
    ];
    let plan = scheduler
        .plan_with_physical_capacity(&demands, 16, 16, true, 10, false)
        .unwrap();
    assert_eq!(
        plan.iter().map(|row| row.sequence_id).collect::<Vec<_>>(),
        vec![0, 1, 2, 3]
    );
    assert_eq!(
        plan.iter().filter(|row| row.phase == Phase::Verify).count(),
        2
    );
    assert_eq!(
        plan.iter()
            .filter(|row| row.phase == Phase::Prefill)
            .count(),
        2
    );
    assert_eq!(plan.iter().map(|row| row.rows).sum::<usize>(), 16);
    assert!(plan.iter().all(|row| row.rows == 4));
}

#[test]
fn generation_round_does_not_mix_recurrent_width_classes() {
    let mut scheduler = Scheduler::new();
    let demands = vec![
        demand(0, Phase::Verify, 4),
        demand(1, Phase::Verify, 3),
        demand(2, Phase::Verify, 4),
    ];
    let plan = scheduler
        .plan_with_physical_capacity(&demands, 16, 16, true, 10, false)
        .unwrap();
    assert_eq!(plan.len(), 1);
    assert_eq!(plan[0].sequence_id, 0);
    assert!(plan.iter().all(|row| row.rows == 4));
}

#[test]
fn recurrent_atomic_round_stops_at_a_sequence_id_gap() {
    let mut scheduler = Scheduler::new();
    let demands = vec![
        demand(2, Phase::Verify, 4),
        demand(3, Phase::Prefill, 20),
        demand(4, Phase::Verify, 4),
        demand(6, Phase::Prefill, 20),
    ];
    let plan = scheduler
        .plan_with_physical_capacity(&demands, 16, 16, true, 10, false)
        .unwrap();
    assert_eq!(
        plan.iter().map(|row| row.sequence_id).collect::<Vec<_>>(),
        vec![2, 3, 4]
    );
    assert!(plan.iter().all(|row| row.rows == 4));
}

#[test]
fn recurrent_prefill_is_one_equal_physical_ubatch() {
    let mut scheduler = Scheduler::new();
    let demands: Vec<_> = (0..10)
        .map(|id| demand(9 - id, Phase::Prefill, 500))
        .collect();
    let plan = scheduler
        .plan_with_physical_capacity(&demands, 512, 64, true, 10, false)
        .unwrap();
    assert_eq!(plan.len(), 10);
    assert!(plan.iter().all(|row| row.rows == 6));
    assert_eq!(plan.iter().map(|row| row.rows).sum::<usize>(), 60);
    assert!(
        plan.windows(2)
            .all(|rows| rows[0].sequence_id < rows[1].sequence_id)
    );
}

/// On a model that forces equal per-sequence widths, a batch carries decodes
/// or prompts and not both.
///
/// This test used to assert the opposite - that a ready decode set the common
/// width to one and the prompts came along at one row each. That is what the
/// scheduler did, and on a 35B hybrid it meant 944.6 rows ready at plan time
/// against 9.85 issued, with 54% of plans leaving rows behind. The prompts
/// were not short of work; they were being cut to a decode's width. The
/// contract changed on that measurement, so this test changed with it.
#[test]
fn recurrent_ready_decode_takes_the_batch_and_leaves_prompts_whole() {
    let mut scheduler = Scheduler::new();
    let demands = vec![
        demand(0, Phase::Decode, 1),
        demand(1, Phase::Prefill, 500),
        demand(2, Phase::Prefill, 500),
    ];
    let plan = scheduler
        .plan_with_physical_capacity(&demands, 512, 64, true, 10, false)
        .unwrap();
    // The decode alone, at its own width of one - not two prompts sliced to it.
    assert_eq!(plan.len(), 1);
    assert_eq!(plan[0].sequence_id, 0);
    assert_eq!(plan[0].rows, 1);
    assert_eq!(plan[0].phase, Phase::Decode);
}

/// The cohort split alternates, *given* that an issued decode leaves the
/// ready set.
///
/// **This models the retirement rather than exercising it.** The decode is
/// removed from the demand list here by the test; in the adapter it leaves
/// because `in_flight` is set on issue and `phase()` returns `None` while it
/// is set, and it comes back when the tail clears the flag. What this fixes
/// is the scheduler half: given a ready set with no decode in it, the prompts
/// get a full-width batch rather than a decode's width.
///
/// A worker-level test - real gate, real in-flight transitions, a decode
/// arriving continuously - would settle bounded starvation under the combined
/// policy, and there is no worker harness to write it in yet. Until there is,
/// the no-starvation claim rests on the state machine being read, not run.
#[test]
fn recurrent_cohorts_alternate_when_the_issued_decode_retires() {
    let mut scheduler = Scheduler::new();
    let prompts = [demand(1, Phase::Prefill, 500), demand(2, Phase::Prefill, 500)];
    let mut prompt_batches = 0;
    let mut decode_batches = 0;
    for round in 0..6 {
        // A decode becomes ready every round; the prompts are always ready.
        let ready: Vec<_> = std::iter::once(demand(0, Phase::Decode, 1))
            .chain(prompts.iter().cloned())
            .collect();
        let plan = scheduler
            .plan_with_physical_capacity(&ready, 512, 64, true, 10, false)
            .unwrap();
        assert!(!plan.is_empty(), "round {round} planned nothing");
        if plan[0].phase == Phase::Decode {
            decode_batches += 1;
            // The decode is now in flight, so the next round has only prompts.
            let without = prompts.to_vec();
            let next = scheduler
                .plan_with_physical_capacity(&without, 512, 64, true, 10, false)
                .unwrap();
            assert_eq!(next.len(), 2, "both prompts should share the batch");
            assert!(
                next.iter().all(|row| row.rows == 32),
                "prompts should get the whole UBATCH, not a decode's width",
            );
            prompt_batches += 1;
        }
    }
    assert_eq!(decode_batches, 6, "a ready decode should take every batch it can");
    assert_eq!(prompt_batches, 6, "and the prompts should get one whenever it is out");
}

/// And with no decode ready the prompts get the whole UBATCH between them,
/// which is the width the previous contract was throwing away.
#[test]
fn recurrent_prompts_without_a_decode_share_a_wide_equal_ubatch() {
    let mut scheduler = Scheduler::new();
    let demands = vec![
        demand(1, Phase::Prefill, 500),
        demand(2, Phase::Prefill, 500),
    ];
    let plan = scheduler
        .plan_with_physical_capacity(&demands, 512, 64, true, 10, false)
        .unwrap();
    assert_eq!(plan.len(), 2);
    // 64 rows of physical capacity across two participants, equal widths.
    assert!(plan.iter().all(|row| row.rows == 32));
}

#[test]
fn negotiated_atomic_limit_serializes_staged_mtp_verification() {
    let mut scheduler = Scheduler::new();
    let demands: Vec<_> = (0..10).map(|id| demand(id, Phase::Verify, 4)).collect();
    let plan = scheduler
        .plan_with_physical_capacity(&demands, 512, 64, true, 1, false)
        .unwrap();
    assert_eq!(plan.len(), 1);
    assert_eq!(plan[0].phase, Phase::Verify);
    assert_eq!(plan[0].rows, 4);
}

#[test]
fn negotiated_atomic_exclusivity_rejects_ordinary_cobatching() {
    let mut scheduler = Scheduler::new();
    let demands = vec![
        demand(0, Phase::Verify, 4),
        demand(1, Phase::Prefill, 500),
        demand(2, Phase::Decode, 1),
    ];
    let plan = scheduler
        .plan_with_physical_capacity(&demands, 512, 64, true, 1, true)
        .unwrap();
    assert_eq!(plan.len(), 1);
    assert_eq!(plan[0].phase, Phase::Verify);
    assert_eq!(plan[0].rows, 4);
}

