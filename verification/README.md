# Rooms: observing model calls for distillation

A room records the calls observed at one model endpoint (their step, the
options offered, the answer chosen, latency and so on) and derives from them
which decision steps could be taken over by small experts.

The library in `src/` is verified with Verus:

- `types.rs` – the records; proportions are exact `Ratio`s of integers.
- `hash.rs` – the endpoint hash and the room identifier.
- `observations.rs` – the mathematical reading of a log: distinct steps,
  the ticks of a step, answer frequencies.
- `ranking.rs` – ordering by frequency (ties by first appearance), with its
  uniqueness.
- `decision.rs` – decision points, expert types, distillability.
- `order_free.rs` – what is learned of a step does not depend on the order
  in which its calls were observed.
- `room.rs`, `prediction.rs`, `maintenance.rs`, `analysis.rs` – the room's
  operations: logging, training data, prediction, accuracy, garbage
  collection, analysis and readiness.
- `pipeline.rs` – the staged distillation pipeline, the expert deployment and
  the backtest.

`app/` converts the exact ratios into `f64` for callers that want floating
point, and carries the call embeddings that the library never reads.
