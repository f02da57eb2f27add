//! What every plan keeps: rows drawn from the demands, within capacity, and
//! prompts never starved by decodes.
use staged_adapter::scheduler::{Allocation, Demand, Phase, Scheduler};

fn demand(sequence_id: u32, phase: Phase, rows: usize) -> Demand {
    Demand {
        request_id: format!("request-{sequence_id}"),
        sequence_id,
        compatibility: "completion|tokens|no-lora".into(),
        phase,
        available_rows: rows,
        atomic: matches!(phase, Phase::Verify | Phase::Replay),
    }
}

fn assert_drawn(demands: &[Demand], plan: &[Allocation]) {
    for (k, allocation) in plan.iter().enumerate() {
        let source = demands
            .iter()
            .find(|d| d.sequence_id == allocation.sequence_id)
            .expect("allocation names a demand");
        assert_eq!(source.request_id, allocation.request_id);
        assert_eq!(source.phase, allocation.phase);
        assert!(allocation.rows >= 1 && allocation.rows <= source.available_rows);
        assert!(
            plan[k + 1..]
                .iter()
                .all(|other| other.sequence_id != allocation.sequence_id)
        );
    }
}

fn rows(plan: &[Allocation]) -> usize {
    plan.iter().map(|allocation| allocation.rows).sum()
}

#[test]
fn ordinary_plans_stay_within_the_logical_batch_and_draw_from_demands() {
    let mut scheduler = Scheduler::new();
    let demands = vec![
        demand(0, Phase::Prefill, 300),
        demand(1, Phase::Decode, 1),
        demand(2, Phase::Prefill, 7),
        demand(3, Phase::Decode, 1),
        demand(4, Phase::Prefill, 90),
    ];
    for capacity in [1, 2, 3, 10, 64, 512, 1000] {
        let plan = scheduler.plan(&demands, capacity).unwrap();
        assert_drawn(&demands, &plan);
        assert!(rows(&plan) <= capacity, "capacity {capacity}: {plan:?}");
    }
}

#[test]
fn equal_width_plans_stay_within_the_physical_batch() {
    let mut scheduler = Scheduler::new();
    let demands = vec![
        demand(0, Phase::Prefill, 500),
        demand(1, Phase::Prefill, 37),
        demand(2, Phase::Decode, 1),
        demand(3, Phase::Prefill, 64),
    ];
    for _ in 0..20 {
        let plan = scheduler
            .plan_with_physical_capacity(&demands, 512, 48, true, 16, false)
            .unwrap();
        assert_drawn(&demands, &plan);
        assert!(rows(&plan) <= 48);
        assert!(!plan.is_empty());
    }
}

#[test]
fn speculative_rounds_stay_within_the_physical_batch() {
    let mut scheduler = Scheduler::new();
    let demands = vec![
        demand(0, Phase::Verify, 3),
        demand(1, Phase::Verify, 3),
        demand(2, Phase::Prefill, 40),
        demand(3, Phase::Decode, 1),
        demand(4, Phase::Replay, 3),
    ];
    for equal in [false, true] {
        for capacity in [3, 4, 7, 9, 30] {
            let plan = scheduler
                .plan_with_physical_capacity(&demands, 512, capacity, equal, 16, false)
                .unwrap();
            assert_drawn(&demands, &plan);
            assert!(rows(&plan) <= capacity, "equal={equal} capacity={capacity}: {plan:?}");
        }
    }
}

#[test]
fn decodes_hold_an_equal_width_batch_at_most_the_patience_in_a_row() {
    let mut scheduler = Scheduler::new();
    let demands = vec![demand(0, Phase::Prefill, 100), demand(1, Phase::Decode, 1)];
    let mut decode_run = 0;
    let mut longest = 0;
    for _ in 0..50 {
        let plan = scheduler
            .plan_with_physical_capacity(&demands, 512, 64, true, 16, false)
            .unwrap();
        assert!(!plan.is_empty());
        let decodes = plan.iter().all(|allocation| allocation.phase == Phase::Decode);
        let prompts = plan.iter().all(|allocation| allocation.phase == Phase::Prefill);
        assert!(decodes || prompts, "one cohort per batch: {plan:?}");
        if decodes {
            decode_run += 1;
            longest = longest.max(decode_run);
        } else {
            decode_run = 0;
        }
    }
    assert_eq!(longest, 8);
}

#[test]
fn two_schedulers_in_the_same_state_plan_the_same_batch() {
    let demands = vec![
        demand(0, Phase::Decode, 1),
        demand(1, Phase::Prefill, 300),
        demand(2, Phase::Prefill, 7),
        demand(3, Phase::Decode, 1),
    ];
    let mut first = Scheduler::new();
    let mut second = Scheduler::new();
    for _ in 0..5 {
        let a = first.plan(&demands, 64);
        let b = second.plan_with_physical_capacity(&demands, 64, 64, false, usize::MAX, false);
        assert_eq!(a, b);
        assert_eq!(first.state, second.state);
        assert_eq!(first.revision, second.revision);
    }
    let mut third = Scheduler::new();
    let mut fourth = Scheduler::new();
    for _ in 0..12 {
        assert_eq!(
            third.plan_with_physical_capacity(&demands, 8, 8, true, 16, false),
            fourth.plan_with_physical_capacity(&demands, 8, 8, true, 16, false),
        );
        assert_eq!(third.state, fourth.state);
    }
}

#[test]
fn with_both_cohorts_ready_the_prompts_are_served_once_every_nine_plans() {
    let mut demands: Vec<Demand> = (0..16).map(|i| demand(i, Phase::Decode, 1)).collect();
    demands.push(demand(16, Phase::Prefill, 2000));
    let mut scheduler = Scheduler::new();
    let mut served = Vec::new();
    for call in 0..64 {
        let plan = scheduler.plan_with_physical_capacity(&demands, 8, 8, true, 16, false).unwrap();
        if plan.iter().any(|a| a.phase == Phase::Prefill) {
            served.push(call);
        }
    }
    assert_eq!(served, vec![8, 17, 26, 35, 44, 53, 62]);
}

#[test]
fn an_equal_width_plan_ignores_the_order_of_its_demands() {
    let demands = vec![
        demand(4, Phase::Prefill, 300),
        demand(1, Phase::Decode, 1),
        demand(9, Phase::Prefill, 40),
        demand(2, Phase::Decode, 1),
        demand(7, Phase::Prefill, 12),
    ];
    let mut reversed = demands.clone();
    reversed.reverse();
    let mut first = Scheduler::new();
    let mut second = Scheduler::new();
    for _ in 0..20 {
        assert_eq!(
            first.plan_with_physical_capacity(&demands, 16, 16, true, 16, false),
            second.plan_with_physical_capacity(&reversed, 16, 16, true, 16, false),
        );
        assert_eq!(first.state, second.state);
    }
}

#[test]
fn every_prompt_of_a_steady_cohort_is_served_within_its_turn() {
    // Five prompts, two taken per plan: every one is served within
    // ceil(5 / 2) = 3 plans, in order of sequence id and wrapping round.
    let demands: Vec<Demand> = (0..5).map(|i| demand(10 + i, Phase::Prefill, 100)).collect();
    let mut scheduler = Scheduler::new();
    let mut served: Vec<Vec<u32>> = Vec::new();
    for _ in 0..3 {
        let plan = scheduler.plan_with_physical_capacity(&demands, 2, 2, true, 16, false).unwrap();
        served.push(plan.iter().map(|a| a.sequence_id).collect());
    }
    assert_eq!(served, vec![vec![10, 11], vec![12, 13], vec![10, 14]]);
}
