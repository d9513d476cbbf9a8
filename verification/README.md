# chunk_router

Routing decisions for a fleet of inference workers, verified with Verus.

The chunk-aware policy places a request by the prefill work that is pending on
the workers: what a worker reported as waiting, plus what was dispatched to it
since, in chunks, scaled by its measured prefill rate. A prefix that a worker
already holds earns it a credit. Three rules bound that credit: a dispatch
reserves the uncached tokens of the request, a backlog gap beyond the spillover
bound turns affinity off, and short requests never earn any.

## Layout

- `src/chunk_aware.rs`: the policy: candidates, scores, selection, polls.
- `src/policy.rs`, `src/worker.rs`: what policies share; what is known of a worker.
- `src/prefill.rs`, `src/store.rs`: measured rates, by worker, and their median.
- `src/scoring.rs`: the lowest score, and the rotation among ties.
- `src/worker_manager.rs`, `src/loads.rs`, `src/json.rs`, `src/status.rs`: the
  requests to the workers, and what their answers mean.
- `src/monitor.rs`: what the load monitor does on each tick.
- `src/keyed.rs`, `src/text.rs`: small containers and texts.
- `src/binary64.rs`, `src/number.rs`, `src/rounding.rs`, `src/order.rs`:
  floating-point arithmetic on bit patterns, with proved rounding.
- `src/laws.rs`, `src/rates.rs`: what holds of the library as a whole.
- `app/`: the router around it: live workers, prefix trees, HTTP, tasks.

## What is trusted

The functions marked `external_body` wrap `dashmap` (the map of prefill states),
`serde_json` (reading load documents) and `http` (status codes). Each says in its
doc comment what is believed of the function that it calls.
