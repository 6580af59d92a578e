//! Chronos: a deterministic, fault-tolerant micro-VM supervisor for
//! multi-tenant workloads.
//!
//! - `guarded_memory`, `dirty`, `delta`, `smt`: guarded linear memory, dirty
//!   page tracking, page deltas, and checkpoints over a sparse Merkle tree.
//! - `io`: per-cell descriptors and completions that wait for the next quantum
//!   boundary.
//! - `replicate`: the ring of page deltas and the standby that applies them.
//! - `clock`, `event_log`, `cell`, `scheduler`, `supervisor`: the logical
//!   clock, recording and replay of non-determinism, cells, round-robin
//!   dispatch, and the cycle that ties them together.
//! - `progress`: what a cycle comes to, and that no cell goes unchecked.
//! - `determinism`: hosts that start alike and run alike agree at every cycle.

pub mod cell;
pub mod clock;
pub mod delta;
pub mod determinism;
pub mod digest;
pub mod dirty;
pub mod event_log;
pub mod guarded_memory;
pub mod io;
pub mod progress;
pub mod replicate;
pub mod scheduler;
pub mod smt;
pub mod supervisor;

pub use cell::{Cell, CellConfig, CellId};
pub use clock::{LogicalClock, Tick};
pub use delta::{DeltaEngine, PageDelta};
pub use digest::Digest;
pub use dirty::DirtyPageSet;
pub use event_log::{EventRecorder, NonDeterminismSource};
pub use guarded_memory::{GuardedMemory, MemFault, MmapGuardedMemory};
pub use io::{
    FdTable, GuestFd, IoCompletion, IoError, IoSubsystem, PendingCompletions, StubIoSubsystem,
};
pub use replicate::{DeltaRing, DeltaRingProducer, StandbyApplyLoop, TickBatch};
pub use scheduler::{DispatchOutcome, Scheduler};
pub use smt::{CheckpointChain, SparseMerkleTree, PAGE_SIZE};
pub use supervisor::Supervisor;
