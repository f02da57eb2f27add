//! What the scheduler must do, checked without a GPU.
//!
//! Each of these would have caught a mistake this pipeline actually made, and
//! none of them needs a machine with two cards or twenty minutes of wall clock.

use staged_adapter::scheduler::Phase;
use staged_adapter::simulator::{PipelineShape, Simulation};

fn assert_clean(simulation: &Simulation, what: &str) {
    assert!(
        simulation.violations.is_empty(),
        "{what}: {:#?}",
        simulation.violations,
    );
}

#[test]
fn a_mixed_load_holds_every_invariant() {
    let mut simulation = Simulation::new(PipelineShape::default());
    // The shape the harness runs: a few long prompts among many short ones.
    for index in 0..8 {
        let prompt = match index % 4 {
            0 => 19,
            1 => 202,
            2 => 564,
            _ => 1290,
        };
        simulation.admit_request(&format!("request-{index}"), prompt, 4);
    }
    let ticks = simulation.run(4000);
    assert_clean(&simulation, "mixed load");
    assert!(ticks < 4000, "every request should finish; used {ticks} ticks");
}

#[test]
fn a_recurrent_model_holds_them_too() {
    // Equal per-sequence widths, where one ready decode used to cut every
    // prompt to a single row.
    let mut simulation = Simulation::new(PipelineShape {
        equal_sequence_ubatch: true,
        ..PipelineShape::default()
    });
    for index in 0..6 {
        simulation.admit_request(&format!("request-{index}"), 500, 3);
    }
    let ticks = simulation.run(6000);
    assert_clean(&simulation, "recurrent load");
    assert!(ticks < 6000, "every request should finish; used {ticks} ticks");
}

#[test]
fn a_prompt_is_never_starved_by_a_stream_of_decodes() {
    // One long prompt against seven sequences that decode for a long time. If
    // the cohort split let decodes monopolise the pipeline, the prompt would
    // never tile and the run would exhaust its budget.
    let mut simulation = Simulation::new(PipelineShape {
        equal_sequence_ubatch: true,
        ..PipelineShape::default()
    });
    simulation.admit_request("prompt", 2000, 1);
    for index in 0..7 {
        simulation.admit_request(&format!("decoder-{index}"), 8, 200);
    }
    let ticks = simulation.run(20_000);
    assert_clean(&simulation, "starvation load");
    assert!(
        ticks < 20_000,
        "a long prompt must finish beside continuous decoding; used {ticks} ticks",
    );
}

#[test]
fn raising_the_fragment_limit_changes_nothing_a_test_can_see_but_the_pacing() {
    // Both limits must hold every invariant. This is the guard the shipped
    // default rests on: `prefill_fragments > 1` is experimental, and the thing
    // that makes it experimental is that it has no fragment ledger behind it -
    // not that it breaks these.
    for fragments in [1, 2, 4] {
        let mut simulation = Simulation::new(PipelineShape {
            prefill_fragments: fragments,
            ..PipelineShape::default()
        });
        simulation.admit_request("long", 1290, 2);
        simulation.admit_request("short", 19, 2);
        let ticks = simulation.run(4000);
        assert_clean(&simulation, &format!("fragments={fragments}"));
        assert!(ticks < 4000, "fragments={fragments} did not finish");
    }
}

#[test]
fn one_fragment_makes_a_prompt_wait_a_whole_lap_and_more_do_not() {
    // The claim the fragment work rests on, stated as a count rather than as a
    // throughput number that a busy pipeline can hide.
    //
    // The batch capacity has to be the thing that splits the prompt, or there
    // is nothing to overlap: the default 512 swallows a 260-row prompt whole
    // and both limits issue it on tick zero, which is how this test first
    // failed. At 64 rows a batch it is five fragments - one lap apart when
    // only one may travel, back to back when four may.
    let issue_ticks = |fragments: u32| {
        let mut simulation = Simulation::new(PipelineShape {
            prefill_fragments: fragments,
            batch_capacity: 64,
            physical_capacity: 64,
            ..PipelineShape::default()
        });
        simulation.admit_request("only", 260, 1);
        simulation.run(4000);
        assert!(simulation.violations.is_empty(), "{:#?}", simulation.violations);
        simulation
            .trace
            .iter()
            .filter(|batch| batch.rows.iter().any(|(_, phase, _)| *phase == Phase::Prefill))
            .map(|batch| batch.tick)
            .collect::<Vec<_>>()
    };

    let serial = issue_ticks(1);
    let overlapped = issue_ticks(4);
    assert_eq!(serial.len(), overlapped.len(), "the same rows are issued either way");
    let serial_span = serial.last().unwrap() - serial.first().unwrap();
    let overlapped_span = overlapped.last().unwrap() - overlapped.first().unwrap();
    assert!(
        overlapped_span < serial_span,
        "more fragments should compress the prompt's issue window: {serial:?} against {overlapped:?}",
    );
}


#[test]
fn a_ready_decode_does_not_cut_a_prompt_to_a_single_row() {
    // The defect the cohort split exists to prevent, stated as a width rather
    // than as a throughput number.
    //
    // On a model that forces equal per-sequence widths, a decode has exactly
    // one row to give, so a batch that admits both a decode and a prompt is a
    // batch one row wide - and the prompt with two thousand rows ready sends
    // one of them. The measured symptom on the 35B was 944.6 rows ready
    // against 9.85 issued.
    //
    // Removing the split in `plan_equal_ordinary` passed every other test in
    // this file, which is why this one is here: finishing is not the property
    // that was lost, width is.
    let mut simulation = Simulation::new(PipelineShape {
        equal_sequence_ubatch: true,
        ..PipelineShape::default()
    });
    simulation.admit_request("prompt", 2000, 1);
    for index in 0..7 {
        simulation.admit_request(&format!("decoder-{index}"), 8, 200);
    }
    simulation.run(20_000);
    assert_clean(&simulation, "mixed cohort load");

    let prefill: Vec<usize> = simulation
        .trace
        .iter()
        .flat_map(|batch| batch.rows.iter())
        .filter(|(id, phase, _)| id == "prompt" && *phase == Phase::Prefill)
        .map(|(_, _, rows)| *rows)
        .collect();
    let total: usize = prefill.iter().sum();
    assert_eq!(total, 2000, "the whole prompt is issued either way");
    let mean = total as f64 / prefill.len() as f64;
    assert!(
        mean >= 16.0,
        "a prompt sharing the pipeline with decodes was issued {} rows a batch \
         over {} batches; a decode is cutting it to its own width",
        mean,
        prefill.len(),
    );
}

#[test]
fn a_request_that_asks_for_no_tokens_is_reported() {
    // Settling the last prompt row produces the first token, so a request
    // that may generate none passes its limit the moment its prompt is done.
    let mut simulation = Simulation::new(PipelineShape::default());
    simulation.admit_request("empty-ask", 5, 0);
    simulation.run(100);
    assert!(
        simulation
            .violations
            .iter()
            .any(|violation| violation.rule == "generated never passes max_tokens"),
        "{:#?}",
        simulation.violations,
    );
}

#[test]
fn time_carries_across_runs_without_a_violation() {
    let mut simulation = Simulation::new(PipelineShape::default());
    simulation.admit_request("first", 40, 3);
    let first = simulation.run(2);
    assert_eq!(first, 2);
    simulation.admit_request("second", 10, 2);
    let rest = simulation.run(4000);
    assert!(rest < 4000);
    assert_clean(&simulation, "two runs");
}

#[test]
fn a_one_token_limit_settles_its_prompt_and_issues_no_decode() {
    // This stands in for the recorded golden trace of the shipped default,
    // which listed a decode for each of these one-token requests at tick 2.
    // That recording predates the settlement fix: a settlement produces a
    // token and a ready row only while the request may still generate, and
    // a decode here would break the `generated never passes max_tokens` rule
    // that the same recording asserted clean. The trace below is the one
    // the settlement rule gives.
    //
    // The token a request may generate is the one its prompt's settlement
    // produces, so with `max_tokens = 1` nothing follows the prompts: both
    // whole prompts leave in one logical batch at tick zero, and that is the
    // whole trace.
    let mut simulation = Simulation::new(PipelineShape {
        stages: 2,
        physical_capacity: 8,
        batch_capacity: 64,
        prefill_fragments: 1,
        equal_sequence_ubatch: false,
    });
    simulation.admit_request("long", 20, 1);
    simulation.admit_request("short", 4, 1);
    let used = simulation.run(200);
    assert_clean(&simulation, "one-token limit");
    assert!(used < 200);
    let trace: Vec<(usize, Vec<(String, Phase, usize)>)> =
        simulation.trace.iter().map(|batch| (batch.tick, batch.rows.clone())).collect();
    assert_eq!(
        trace,
        vec![(0, vec![("long".to_owned(), Phase::Prefill, 20), ("short".to_owned(), Phase::Prefill, 4)])],
    );
    assert!(simulation.issued_decodes.is_empty());
}
