# kiln

A verified execution core for autonomous development work. A frozen unit of work
comes in by value; it is admitted or refused, its cells are run and verified, and
a verdict goes out. The library decides; the program around it performs the
effects.

## Layout

- `src/interface.rs`, `src/interface/canonical.rs`, `src/admission.rs`: the unit,
  the verdict and the capability manifest, validation, the distance between what a
  unit needs and what a box can do, and the flattening of the record that a unit
  arrives as.
- `src/switch.rs`, `src/queue.rs`, `src/exploration.rs`, `src/sandbox.rs`,
  `src/serving.rs`, `src/stream.rs`, `src/oracle.rs`, `src/host.rs`: the deciders
  and their projections, one bounded context each, the batch scheduler and the
  idempotent log.
- `src/execution.rs`: the walk of the sealed cell graph and the verdict it reduces to.
- `src/order.rs`, `src/artifact.rs`, `src/delivery.rs`, `src/chat.rs`: the order in
  which cells are run, their prompts and artifacts, how a run is delivered, and the
  requests that a chat worker sends.
- `src/executor.rs`, `src/drain.rs`: the engine, and the isolated drain of one unit
  as a machine that names the next effect.
- `src/cli.rs`, `src/report.rs`: what the command line decides and says.
- `src/json.rs`, `src/hash.rs`, `src/text.rs`, `src/sorted.rs`, `src/decider.rs`:
  documents, content hashes, texts, ordered collections, and the shape of a decision.
- `tests/`: tests on concrete values.
- `app/`: the program: files, git, processes, sockets, and the JSON encoding of the
  library's types.

Public proof functions named `law_…` state what holds of the library as a whole.
