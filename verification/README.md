# hive

A library for the Hive agent runtime, verified with Verus.

- `src/pods/genome.rs` — the CGP genome of evolving pods: building a genome
  from drawn values, single gene flips, random generation and mutation on
  top of them, and the active-node walk, with their contracts and laws.
- `src/pods/` — the built-in pods (evolving pod, ping, speaker).
- `src/pod.rs` — tasks, results, the `Pod` trait and the sorted pod-type registry.
- `src/knowledge.rs` — the per-type knowledge base: indexing, ranked queries,
  feedback, and saving to and loading from a storage backend.
- `src/hive_core.rs`, `src/hive.rs` — the decisions and event texts of the hive loops.
- `src/tui.rs` — key handling, the input bar and the activity-log layout.
- `src/text.rs` — decimal text of numbers and the order of texts.
- `app/` — the executable: actix actors, channels, the Ollama speaker, drawing,
  and the embedding-based scores that ranked queries take.
