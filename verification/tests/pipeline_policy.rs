//! The pipeline policy's member widths and quanta, checked through the planner.
use staged_adapter::pipeline::{PhasePopulation, PipelinePolicy, PipelinePopulation};
use staged_adapter::scheduler::{Demand, OrdinaryLimits, Phase, Scheduler};

fn demand(i: u32, phase: Phase, rows: usize) -> Demand {
    Demand {
        request_id: format!("r{i}"),
        sequence_id: i,
        compatibility: "session".into(),
        phase,
        available_rows: rows,
        atomic: false,
    }
}

#[test]
fn full_width_prefill_keeps_eight_disjoint_batches_available_without_fragments() {
    let mut ready: Vec<_> = (0..16)
        .map(|i| demand(i, Phase::Prefill, 100_000))
        .collect();
    let mut scheduler = Scheduler::new();
    let policy = PipelinePolicy {
        mixed_batch_rows: None,
        mixed_prefill_rows: 128,
    };
    for open in 0..8 {
        let population = PipelinePopulation {
            prefill: PhasePopulation {
                ready: ready.len(),
                in_flight: 16 - ready.len(),
                waiting: 0,
            },
            ..Default::default()
        };
        let selection = policy
            .select(&ready, OrdinaryLimits::default(), 8, open, population)
            .unwrap();
        let plan = scheduler
            .prepare_plan_with_limits(
                &ready,
                512,
                512,
                false,
                1,
                false,
                selection.effective_limits,
            )
            .unwrap();
        assert_eq!(plan.allocations().len(), 2);
        assert!(plan.allocations().iter().all(|a| a.rows == 256));
        let accepted = scheduler.commit_plan(plan).unwrap();
        ready.retain(|d| !accepted.iter().any(|a| a.sequence_id == d.sequence_id));
    }
    assert!(ready.is_empty());
}

#[test]
fn mixed_quantum_applies_even_while_decode_is_in_flight_and_pure_prefill_recovers_width() {
    let ready = [demand(0, Phase::Prefill, 100_000)];
    let scheduler = Scheduler::new();
    let policy = PipelinePolicy {
        mixed_batch_rows: None,
        mixed_prefill_rows: 128,
    };
    for (decoding_active, expected) in [(true, 128), (false, 512)] {
        let population = PipelinePopulation {
            prefill: PhasePopulation {
                ready: 1,
                ..Default::default()
            },
            decode: PhasePopulation {
                in_flight: usize::from(decoding_active),
                ..Default::default()
            },
            ..Default::default()
        };
        let selection = policy
            .select(&ready, OrdinaryLimits::default(), 8, 1, population)
            .unwrap();
        let plan = scheduler
            .prepare_plan_with_limits(
                &ready,
                512,
                512,
                false,
                1,
                false,
                selection.effective_limits,
            )
            .unwrap();
        assert_eq!(plan.allocations()[0].rows, expected);
    }
}

#[test]
fn an_explicit_smaller_budget_survives_and_no_unbounded_window_is_accepted() {
    let ready: Vec<_> = (0..16)
        .map(|i| demand(i, Phase::Prefill, 100_000))
        .collect();
    let policy = PipelinePolicy {
        mixed_batch_rows: None,
        mixed_prefill_rows: 128,
    };
    let configured = OrdinaryLimits {
        prefill_rows: 64,
        prefill_members: 1,
        ..OrdinaryLimits::default()
    };
    let population = PipelinePopulation {
        prefill: PhasePopulation {
            ready: 16,
            ..Default::default()
        },
        decode: PhasePopulation {
            in_flight: 1,
            ..Default::default()
        },
        ..Default::default()
    };
    let result = policy.select(&ready, configured, 8, 0, population).unwrap();
    assert_eq!(result.effective_limits.prefill_rows, 64);
    assert_eq!(result.effective_limits.prefill_members, 1);
    for (window, open) in [(0, 0), (8, 8), (8, 9)] {
        assert!(
            policy
                .select(&ready, configured, window, open, population)
                .is_err()
        );
    }
}

#[test]
fn the_last_vacancy_does_not_merge_independent_prefills_and_draining_is_not_future_work() {
    let policy = PipelinePolicy {
        mixed_batch_rows: None,
        mixed_prefill_rows: 128,
    };
    let ready: Vec<_> = (0..8).map(|i| demand(i, Phase::Prefill, 100_000)).collect();
    let population = PipelinePopulation {
        prefill: PhasePopulation {
            ready: 8,
            ..Default::default()
        },
        decode: PhasePopulation {
            in_flight: 7,
            ..Default::default()
        },
        ..Default::default()
    };
    for open in 0..8 {
        let selection = policy
            .select(&ready, OrdinaryLimits::default(), 8, open, population)
            .unwrap();
        assert_eq!(selection.effective_limits.prefill_members, 1);
        assert_eq!(selection.effective_limits.prefill_rows, 128);
        assert_eq!(selection.prefill_groups, Some(8));
    }
    let draining = PipelinePopulation {
        prefill: PhasePopulation {
            ready: 1,
            ..Default::default()
        },
        prefill_draining: 15,
        ..Default::default()
    };
    let selection = policy
        .select(&ready[..1], OrdinaryLimits::default(), 8, 7, draining)
        .unwrap();
    assert_eq!(selection.effective_limits.prefill_members, 1);
    assert_eq!(selection.prefill_groups, Some(1));
}

#[test]
fn an_inconsistent_population_is_rejected_without_spending_scheduler_state() {
    let policy = PipelinePolicy {
        mixed_batch_rows: None,
        mixed_prefill_rows: 128,
    };
    let ready = [demand(0, Phase::Prefill, 100_000)];
    assert!(
        policy
            .select(&ready, OrdinaryLimits::default(), 8, 7, Default::default())
            .is_err()
    );
    let overflow = PipelinePopulation {
        prefill: PhasePopulation {
            ready: 1,
            in_flight: usize::MAX,
            waiting: 0,
        },
        ..Default::default()
    };
    assert!(
        policy
            .select(&ready, OrdinaryLimits::default(), 8, 7, overflow)
            .is_err()
    );
}

#[test]
fn generation_cohorts_own_capacity_before_prefill_independent_of_flight_vacancies() {
    let policy = PipelinePolicy {
        mixed_batch_rows: None,
        mixed_prefill_rows: 128,
    };
    let mut ready: Vec<_> = (0..16).map(|i| demand(i, Phase::Decode, 1)).collect();
    ready.push(demand(16, Phase::Prefill, 100_000));
    let population = PipelinePopulation {
        prefill: PhasePopulation {
            ready: 1,
            ..Default::default()
        },
        decode: PhasePopulation {
            ready: 16,
            ..Default::default()
        },
        ..Default::default()
    };
    for open in 0..8 {
        let selected = policy
            .select(&ready, OrdinaryLimits::default(), 8, open, population)
            .unwrap();
        let scheduler = Scheduler::new();
        let plan = scheduler
            .prepare_plan_with_limits(
                &ready,
                512,
                512,
                false,
                1,
                false,
                selected.effective_limits,
            )
            .unwrap();
        assert_eq!(
            plan.allocations()
                .iter()
                .filter(|a| a.phase == Phase::Decode)
                .count(),
            2
        );
        assert_eq!(
            plan.allocations()
                .iter()
                .filter(|a| a.phase == Phase::Prefill)
                .map(|a| a.rows)
                .sum::<usize>(),
            128
        );
    }
    let explicit = policy
        .select(
            &ready,
            OrdinaryLimits {
                decode_members: 1,
                ..Default::default()
            },
            8,
            0,
            population,
        )
        .unwrap();
    assert_eq!(explicit.effective_limits.decode_members, 1);
}

#[test]
fn a_selection_depends_on_the_population_not_on_free_slots() {
    let ready = [demand(0, Phase::Prefill, 500), demand(1, Phase::Decode, 1)];
    let policy = PipelinePolicy {
        mixed_batch_rows: None,
        mixed_prefill_rows: 32,
    };
    let population = PipelinePopulation {
        prefill: PhasePopulation { ready: 1, in_flight: 5, waiting: 2 },
        decode: PhasePopulation { ready: 1, in_flight: 3, waiting: 0 },
        prefill_draining: 1,
    };
    let configured = OrdinaryLimits { prefill_rows: 0, prefill_members: 0, decode_members: 2 };
    let first = policy.select(&ready, configured, 4, 0, population).unwrap();
    for open in 1..4 {
        let other = policy.select(&ready, configured, 4, open, population).unwrap();
        assert_eq!(other.effective_limits, first.effective_limits);
        assert_eq!(other.prefill_groups, first.prefill_groups);
        assert_eq!(other.decode_groups, first.decode_groups);
        assert_eq!(other.open, open);
    }
    // The configured decode width bounds the derived one; generation caps
    // prefill at the mixed quantum.
    assert!(first.effective_limits.decode_members <= 2);
    assert_eq!(first.effective_limits.prefill_rows, 32);
    assert!(first.effective_limits.prefill_members >= 1);
}
