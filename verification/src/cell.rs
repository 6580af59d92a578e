//! A cell is one tenant's execution context: guarded linear memory, its own
//! event recorder, its own checkpoint chain, its own file descriptors and its
//! own queue of I/O completions. The supervisor dispatches cells; a cell never
//! touches another cell's state.

use vstd::prelude::*;

use crate::event_log::{
    EventRecorder, NonDeterminismSource, RecorderMode, RecorderView, ReplayError,
};
use crate::guarded_memory::{is_fresh, is_refusal, region_fits, MemFault, MmapGuardedMemory};
use crate::io::{FdTable, GuestFd, IoCompletion, PendingCompletions};
use crate::smt::{CheckpointChain, CheckpointEntry};

verus! {

/// Stable identifier for a tenant execution context.
pub type CellId = u64;

#[derive(Debug, Clone, Copy)]
pub struct CellConfig {
    pub id: CellId,
    pub initial_memory_bytes: u32,
    pub quota_bytes: u32,
    /// Ticks between checkpoints. Smaller values give tighter granularity at
    /// higher hashing cost.
    pub checkpoint_interval_ticks: u64,
}

/// One tenant's full runtime state. It holds no reference to any other cell.
pub struct Cell<M = MmapGuardedMemory> {
    pub config: CellConfig,
    pub memory: M,
    pub recorder: EventRecorder,
    pub checkpoints: CheckpointChain,
    pub fd_table: FdTable,
    pub pending_io: PendingCompletions,
    /// Tick of the last checkpoint taken for this cell.
    pub last_checkpoint_tick: u64,
}

impl<M> Cell<M> {
    /// Nothing was run in the cell yet.
    pub open spec fn is_new(self, config: CellConfig, recorder_mode: RecorderMode) -> bool {
        &&& self.config == config
        &&& self.recorder@ == RecorderView::start(recorder_mode, Map::empty())
        &&& self.checkpoints.leaves() == Map::<u64, Seq<u8>>::empty()
        &&& self.checkpoints.entries() == Seq::<CheckpointEntry>::empty()
        &&& self.fd_table@ == Map::<GuestFd, i32>::empty()
        &&& self.fd_table.next_fd() == 3
        &&& self.pending_io@ == Seq::<IoCompletion>::empty()
        &&& self.last_checkpoint_tick == 0
    }

    /// At least an interval has passed since the last checkpoint.
    pub open spec fn due(self, current_tick: u64) -> bool {
        (if current_tick > self.last_checkpoint_tick {
            current_tick - self.last_checkpoint_tick
        } else {
            0
        }) >= self.config.checkpoint_interval_ticks
    }

    /// A new cell on the given memory.
    pub fn with_memory(config: CellConfig, recorder_mode: RecorderMode, memory: M) -> (cell: Self)
        ensures
            cell.is_new(config, recorder_mode),
            cell.memory == memory,
            cell.recorder@.mode == recorder_mode,
    {
        Cell {
            recorder: EventRecorder::new(recorder_mode),
            checkpoints: CheckpointChain::new(),
            fd_table: FdTable::new(),
            pending_io: PendingCompletions::new(),
            last_checkpoint_tick: 0,
            memory,
            config,
        }
    }

    /// Whether a checkpoint is due at `current_tick`.
    pub fn checkpoint_due(&self, current_tick: u64) -> (due: bool)
        ensures
            due == self.due(current_tick),
    {
        current_tick.saturating_sub(self.last_checkpoint_tick)
            >= self.config.checkpoint_interval_ticks
    }
}

impl Cell<MmapGuardedMemory> {
    /// A new cell, with a region of its own, if the host grants the memory.
    pub fn new(config: CellConfig, recorder_mode: RecorderMode) -> (cell: Result<Self, MemFault>)
        ensures
            cell is Ok ==> {
                &&& region_fits(config.initial_memory_bytes, config.quota_bytes)
                &&& cell->Ok_0.is_new(config, recorder_mode)
                &&& cell->Ok_0.recorder@.mode == recorder_mode
                &&& is_fresh(cell->Ok_0.memory, config.initial_memory_bytes, config.quota_bytes)
            },
            cell is Err ==> is_refusal(
                cell->Err_0,
                config.initial_memory_bytes,
                config.quota_bytes,
            ),
    {
        match MmapGuardedMemory::new(config.initial_memory_bytes, config.quota_bytes) {
            Err(fault) => Err(fault),
            Ok(memory) => Ok(Cell::with_memory(config, recorder_mode, memory)),
        }
    }
}

/// A new cell is blank: configured and in the mode as asked, with nothing
/// recorded, checkpointed, open or pending.
pub proof fn law_new_cell_is_blank<M>(cell: Cell<M>, config: CellConfig, mode: RecorderMode)
    requires
        cell.is_new(config, mode),
    ensures
        cell.config == config,
        cell.recorder@.mode == mode,
        cell.recorder.fetches() <==> mode is Record,
        forall|key: (u64, u64)| !#[trigger] cell.recorder@.log.contains_key(key),
        forall|tick: u64| #[trigger] cell.recorder@.ordinal_at(tick) == 0,
        cell.last_checkpoint_tick == 0,
        cell.checkpoints.entries().len() == 0,
        forall|p: u64| !#[trigger] cell.checkpoints.leaves().contains_key(p),
        forall|fd: GuestFd| !#[trigger] cell.fd_table@.contains_key(fd),
        cell.fd_table.next_fd() == 3,
        cell.pending_io@.len() == 0,
{
}

/// A new cell in replay mode fetches nothing from the host: with nothing to
/// replay, every call in every tick misses its entry.
pub proof fn law_new_replay_cell_never_fetches<M>(
    cell: Cell<M>,
    config: CellConfig,
    tick: u64,
    len: nat,
)
    requires
        cell.is_new(config, RecorderMode::Replay),
    ensures
        !cell.recorder.fetches(),
        cell.recorder@.replayed_clock(tick) == Err::<u64, ReplayError>(
            ReplayError::MissingEntry { tick, ordinal: 0 },
        ),
        cell.recorder@.replayed_random(tick, len) == Err::<Seq<u8>, ReplayError>(
            ReplayError::MissingEntry { tick, ordinal: 0 },
        ),
{
}

/// A checkpoint is due from an interval after the last one on, and not before.
/// A tick from before the last checkpoint counts as no time passed.
pub proof fn law_checkpoint_is_due_after_interval<M>(cell: Cell<M>, tick: u64)
    ensures
        tick >= cell.last_checkpoint_tick + cell.config.checkpoint_interval_ticks ==> cell.due(
            tick,
        ),
        cell.last_checkpoint_tick <= tick < cell.last_checkpoint_tick
            + cell.config.checkpoint_interval_ticks ==> !cell.due(tick),
        tick < cell.last_checkpoint_tick ==> (cell.due(tick) <==> (
        cell.config.checkpoint_interval_ticks == 0)),
{
}

/// A checkpoint that is due stays due until one is taken.
pub proof fn law_due_checkpoint_stays_due<M>(cell: Cell<M>, tick: u64, later: u64)
    requires
        tick <= later,
        cell.due(tick),
    ensures
        cell.due(later),
{
}

} // verus!
