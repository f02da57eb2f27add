# staged_adapter

Batch planning, pipeline admission and identity rules of a staged llama.cpp
adapter, written in Verus with their contracts proved.

## Layout

- `src/` — the verified library.
  - `scheduler.rs`: demands, allocations, validation, the fairness state and
    the prepare/commit transaction of the mixed-batch scheduler.
  - `plan_ordinary.rs`, `plan_equal.rs`, `plan_atomic.rs`: the three
    planners (ordinary attention, equal per-sequence widths, speculative
    rounds), each with a specification of the plan it builds.
  - `plan_laws.rs`, `capacity.rs`: what every plan keeps — allocations are
    drawn from the demands, fit the batch, and prompts are not starved.
  - `plan_determinism.rs`: planning is a function of its inputs, and an
    equal-width plan does not depend on the order of its demands.
  - `plan_rotation.rs`: inside a cohort, equal-width plans serve every
    member in turn.
  - `pipeline.rs`: the pipeline policy that derives member and row limits
    from the admitted population.
  - `service.rs`, `service_laws.rs`: the measured RPC service budget that
    predicts stage costs and decides whether a prefill may join generation.
  - `session_key.rs`: the `sk1:<owner>/<conversation>` conversation key.
  - `resource_profile.rs`: the load-time resource profile and store checks.
  - `request.rs`, `proposal.rs`: request progress and ready rows.
  - `simulator.rs`: a deterministic virtual pipeline that drives the real
    scheduler and checks its bookkeeping after every tick; a healthy
    simulation is proved to stay healthy and record no violation.
  - `service_shape.rs`: the service shape of a planned or physical batch.
  - `workload.rs`: the prompt rows each fixture case declares.
  - `text.rs`, `rows.rs`: character and row-sum helpers.
- `tests/` — scenario tests run against the compiled library.
- `app/` — the parts that touch the process: the evidence record file, the
  environment setting for the service budget, the runtime resource probe,
  and the serde forms of the library's types.

## Not here

The stage worker (its release, settlement and admission paths) and its tests
are not part of this crate: they rest on the worker's state and ledger
modules, the physical capsule codec and the protocol, agent and effect
crates, none of which are available to build against. What of the worker is
pure logic over this library's types stands in `src/`: the service budget
setting, the planned and physical service shapes.
