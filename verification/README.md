# Chronos

A deterministic, fault-tolerant micro-VM supervisor for multi-tenant
workloads, verified with Verus.

- `src/` is the library: guarded memory, dirty-page tracking, page deltas,
  checkpoints over a sparse Merkle tree, descriptors and completions, the
  replication ring and the standby, recording and replay, scheduling, and the
  supervisor's dispatch cycle. Functions state in their contracts what they
  return; of the traits that a host implements, `IoSubsystem` and
  `NonDeterminismSource`, it is the implementations here that do. Proof
  functions named `law_..` state what holds across functions.
- `app/` is the host's side: memory mapped from the operating system with a
  guard page, the `io_uring` backend, printable errors, and fault logging.
- `tests/` runs the library.

What is taken on trust of other crates: that `blake3::hash` is a function of
its input (`src/digest.rs`), and that `crossbeam`'s `ArrayQueue`, borrowed
exclusively, is a bounded first-in-first-out queue (`src/replicate.rs`).
