use chronos::cell::{Cell, CellConfig, CellId};
use chronos::digest::Digest;
use chronos::event_log::{EventRecorder, NonDeterminismSource, RecorderMode, ReplayEntry};
use chronos::guarded_memory::{GuardedMemory, MemFault, PAGE_SIZE};
use chronos::io::IoCompletion;
use chronos::replicate::{DeltaRing, RingError, StandbyApplyLoop};
use chronos::scheduler::Scheduler;
use chronos::smt::SparseMerkleTree;
use chronos::supervisor::{
    flush_checkpoint, QuantumExecutor, QuantumFault, Supervisor, SupervisorError,
};
use chronos::{DeltaEngine, PageDelta};
use std::collections::HashMap;

fn make_cell(id: CellId) -> Cell {
    let config = CellConfig {
        id,
        initial_memory_bytes: 4096,
        quota_bytes: 4096 * 16,
        checkpoint_interval_ticks: 4,
    };
    Cell::new(config, RecorderMode::Record).unwrap()
}

#[test]
fn round_robin_visits_every_cell_before_repeating() {
    let mut cells = HashMap::new();
    for id in [1, 2, 3] {
        cells.insert(id, make_cell(id));
    }
    let mut sched = Scheduler::new(vec![1, 2, 3]);
    let mut seen = Vec::new();
    for _ in 0..6 {
        let outcome = sched.next_dispatch(&cells).unwrap();
        seen.push(outcome.cell_id);
    }
    assert_eq!(seen, vec![1, 2, 3, 1, 2, 3]);
}

#[test]
fn tick_advances_globally_not_per_cell() {
    let mut cells = HashMap::new();
    for id in [1, 2] {
        cells.insert(id, make_cell(id));
    }
    let mut sched = Scheduler::new(vec![1, 2]);
    let o1 = sched.next_dispatch(&cells).unwrap();
    let o2 = sched.next_dispatch(&cells).unwrap();
    assert_eq!(o1.tick, 1);
    assert_eq!(o2.tick, 2);
}

#[test]
fn checkpoint_due_respects_configured_interval() {
    let mut cells = HashMap::new();
    cells.insert(1, make_cell(1)); // checkpoint_interval_ticks = 4
    let mut sched = Scheduler::new(vec![1]);
    let outcomes: Vec<bool> = (0..5)
        .map(|_| sched.next_dispatch(&cells).unwrap().checkpoint_due)
        .collect();
    // ticks 1,2,3,4,5 -> due at tick 4 (>= interval since last=0)
    assert_eq!(outcomes, vec![false, false, false, true, true]);
}

#[test]
fn deregistered_cell_leaves_the_rotation() {
    let cells: HashMap<CellId, Cell> = HashMap::new();
    let mut sched = Scheduler::new(vec![1, 2, 3]);
    sched.next_dispatch(&cells).unwrap();
    sched.deregister_cell(3);
    sched.register_cell(4);
    let seen: Vec<CellId> = (0..4).map(|_| sched.next_dispatch(&cells).unwrap().cell_id).collect();
    assert_eq!(seen, vec![2, 1, 4, 2]);
    assert_eq!(sched.current_tick(), 5);
    assert!(!sched.next_dispatch(&cells).unwrap().checkpoint_due);
}

#[test]
fn no_cells_no_dispatch() {
    let cells: HashMap<CellId, Cell> = HashMap::new();
    let mut sched = Scheduler::new(vec![]);
    assert!(sched.next_dispatch(&cells).is_none());
    assert_eq!(sched.current_tick(), 0);
}

#[test]
fn checkpoint_is_due_after_an_interval() {
    let mut cell = make_cell(1);
    cell.last_checkpoint_tick = 10;
    assert!(!cell.checkpoint_due(13));
    assert!(cell.checkpoint_due(14));
    assert!(!cell.checkpoint_due(2));
    cell.config.checkpoint_interval_ticks = 0;
    assert!(cell.checkpoint_due(2));
}

/// Writes the number of the quantum at the start of a page, and faults on the
/// cells that it is told to.
struct Writer {
    runs: Vec<(CellId, u64)>,
    faulty: Vec<CellId>,
}

impl QuantumExecutor for Writer {
    fn run_quantum(&mut self, cell: &mut Cell, max_instructions: u64) -> Result<u64, QuantumFault> {
        assert!(cell.pending_io.is_empty());
        self.runs.push((cell.config.id, max_instructions));
        let n = self.runs.len() as u8;
        cell.memory.store(100, &[n])?;
        cell.memory.mark_dirty(0);
        if self.faulty.contains(&cell.config.id) {
            return Err(QuantumFault::Trap("unreachable executed".to_string()));
        }
        Ok(max_instructions)
    }

    fn register_digest(&self, cell: &Cell) -> Digest {
        Digest::of(&[cell.config.id as u8, self.runs.len() as u8])
    }
}

fn config(id: CellId, interval: u64) -> CellConfig {
    CellConfig {
        id,
        initial_memory_bytes: 4096,
        quota_bytes: 8192,
        checkpoint_interval_ticks: interval,
    }
}

fn writer() -> Writer {
    Writer { runs: Vec::new(), faulty: Vec::new() }
}

#[test]
fn supervisor_without_cells_does_nothing() {
    let mut supervisor = Supervisor::new(100);
    let mut executor = writer();
    assert_eq!(supervisor.run_one_cycle(&mut executor).unwrap(), None);
    assert!(executor.runs.is_empty());
    assert!(supervisor.cell(1).is_none());
}

#[test]
fn cells_are_spawned_once_and_within_quota() {
    let mut supervisor = Supervisor::new(100);
    supervisor.spawn_cell(config(1, 1), RecorderMode::Record).unwrap();
    let again = supervisor.spawn_cell(config(1, 1), RecorderMode::Record);
    assert!(matches!(again, Err(SupervisorError::DuplicateCell(1))));
    let mut greedy = config(2, 1);
    greedy.initial_memory_bytes = 8193;
    let refused = supervisor.spawn_cell(greedy, RecorderMode::Record);
    assert!(matches!(
        refused,
        Err(SupervisorError::MemoryInit(
            2,
            MemFault::QuotaExceeded { requested: 8193, quota: 8192 }
        ))
    ));
    assert!(supervisor.cell(2).is_none());
    assert_eq!(supervisor.cell(1).unwrap().memory.size_bytes(), 4096);
}

#[test]
fn cycles_go_round_and_checkpoint_when_due() {
    let mut supervisor = Supervisor::new(100);
    supervisor.spawn_cell(config(7, 1), RecorderMode::Record).unwrap();
    supervisor.spawn_cell(config(8, 4), RecorderMode::Record).unwrap();
    let mut executor = writer();
    let mut seen = Vec::new();
    for _ in 0..4 {
        seen.push(supervisor.run_one_cycle(&mut executor).unwrap().unwrap());
    }
    assert_eq!(seen, vec![(7, 1), (8, 2), (7, 3), (8, 4)]);
    assert_eq!(executor.runs, vec![(7, 100), (8, 100), (7, 100), (8, 100)]);

    let cell = supervisor.cell(7).unwrap();
    assert_eq!(cell.last_checkpoint_tick, 3);
    assert!(cell.memory.dirty_pages().is_empty());
    let mut page = [0u8; PAGE_SIZE];
    page[100] = 3;
    let mut tree = SparseMerkleTree::new();
    tree.update_leaf(0, &page);
    let latest = cell.checkpoints.latest().unwrap();
    assert_eq!(latest.smt_root, tree.root());
    assert_eq!(latest.tick, 3);
    assert_eq!(latest.register_digest, Digest::of(&[7, 3]));
    assert_eq!(supervisor.cell(8).unwrap().last_checkpoint_tick, 4);
}

#[test]
fn faulting_cell_is_not_checkpointed_and_harms_no_other() {
    let mut supervisor = Supervisor::new(5);
    supervisor.spawn_cell(config(1, 1), RecorderMode::Record).unwrap();
    supervisor.spawn_cell(config(2, 1), RecorderMode::Record).unwrap();
    let mut executor = writer();
    executor.faulty.push(1);
    assert_eq!(supervisor.run_one_cycle(&mut executor).unwrap(), Some((1, 1)));
    assert_eq!(supervisor.run_one_cycle(&mut executor).unwrap(), Some((2, 2)));
    let faulted = supervisor.cell(1).unwrap();
    assert!(faulted.checkpoints.latest().is_none());
    assert_eq!(faulted.memory.dirty_pages().iter_dirty(), vec![0]);
    assert!(supervisor.cell(2).unwrap().checkpoints.latest().is_some());
}

#[test]
fn full_ring_stops_the_flush_but_not_the_checkpoint() {
    let mut supervisor = Supervisor::new(5);
    supervisor.enable_replication(1);
    supervisor.spawn_cell(config(1, 1), RecorderMode::Record).unwrap();
    let mut executor = writer();
    assert_eq!(supervisor.run_one_cycle(&mut executor).unwrap(), Some((1, 1)));
    assert!(supervisor.cell(1).unwrap().memory.dirty_pages().is_empty());
    let refused = supervisor.run_one_cycle(&mut executor);
    assert!(matches!(
        refused,
        Err(SupervisorError::ReplicationBackpressure(1, RingError::Full(1)))
    ));
    let cell = supervisor.cell(1).unwrap();
    assert_eq!(cell.last_checkpoint_tick, 2);
    assert_eq!(cell.memory.dirty_pages().iter_dirty(), vec![0]);
}

#[test]
fn flush_streams_the_dirty_pages_to_a_standby() {
    let mut cell = make_cell(1);
    let mut ring = Some(DeltaRing::new(2));
    cell.memory.grow(15).unwrap();
    cell.memory.store(5 * 4096, &[1, 2]).unwrap();
    cell.memory.mark_dirty(5);
    cell.memory.store(4096, &[3]).unwrap();
    cell.memory.mark_dirty(1);
    flush_checkpoint(&mut cell, 9, Digest::of(b"pc"), &mut ring).unwrap();
    assert!(cell.memory.dirty_pages().is_empty());
    assert_eq!(cell.last_checkpoint_tick, 9);

    let batches = ring.as_mut().unwrap().drain();
    assert_eq!(batches.len(), 1);
    assert_eq!(batches[0].tick, 9);
    let pages: Vec<u64> = batches[0].deltas.iter().map(|d| d.page_idx()).collect();
    assert_eq!(pages, vec![1, 5]);
    let mut tree = SparseMerkleTree::new();
    for delta in &batches[0].deltas {
        match delta {
            PageDelta::Raw { page_idx, bytes } => {
                assert_eq!(&bytes[..], cell.memory.page_bytes(*page_idx));
                tree.update_leaf(*page_idx, bytes);
            }
            PageDelta::Xor { .. } => unreachable!(),
        }
    }
    assert_eq!(cell.checkpoints.latest().unwrap().smt_root, tree.root());
    let mut standby = StandbyApplyLoop::new(16);
    standby.apply_batch(&batches[0]).unwrap();
    assert_eq!(standby.last_applied_tick(), 9);
}

#[test]
fn flush_without_a_ring_only_checkpoints() {
    let mut cell = make_cell(1);
    let mut ring: Option<DeltaRing> = None;
    cell.memory.mark_dirty(0);
    flush_checkpoint(&mut cell, 3, Digest::of(b"pc"), &mut ring).unwrap();
    assert!(ring.is_none());
    assert!(cell.memory.dirty_pages().is_empty());
    assert_eq!(cell.checkpoints.latest().unwrap().tick, 3);
}

/// Queues a completion in each quantum, and notes how many it found waiting.
struct Completer {
    found: Vec<bool>,
}

impl QuantumExecutor for Completer {
    fn run_quantum(&mut self, cell: &mut Cell, max_instructions: u64) -> Result<u64, QuantumFault> {
        self.found.push(!cell.pending_io.is_empty());
        let id = cell.config.id;
        cell.pending_io.push(IoCompletion { cell: id, guest_fd: 3, request_id: 0, result: 1 });
        Ok(max_instructions)
    }

    fn register_digest(&self, _cell: &Cell) -> Digest {
        Digest::of(b"pc")
    }
}

#[test]
fn completions_are_handed_over_at_dispatch() {
    let mut supervisor = Supervisor::new(1);
    supervisor.spawn_cell(config(3, 9), RecorderMode::Replay).unwrap();
    let mut executor = Completer { found: Vec::new() };
    for _ in 0..3 {
        supervisor.run_one_cycle(&mut executor).unwrap();
        // What arrived during the quantum waits for the next dispatch.
        assert!(!supervisor.cell(3).unwrap().pending_io.is_empty());
    }
    assert_eq!(executor.found, vec![false, false, false]);
}

#[test]
fn dirty_pages_are_streamed_between_checkpoints() {
    let mut supervisor = Supervisor::new(5);
    assert!(supervisor.replication_ring().is_none());
    supervisor.enable_replication(4);
    supervisor.spawn_cell(config(1, 3), RecorderMode::Record).unwrap();
    let mut executor = writer();
    for tick in 1..=3u64 {
        supervisor.run_one_cycle(&mut executor).unwrap();
        let batches = supervisor.replication_ring().unwrap().drain();
        assert_eq!(batches.len(), 1);
        assert_eq!(batches[0].tick, tick);
        let mut page = [0u8; PAGE_SIZE];
        page[100] = tick as u8;
        assert_eq!(batches[0].deltas, vec![PageDelta::Raw { page_idx: 0, bytes: page }]);
        let cell = supervisor.cell(1).unwrap();
        assert_eq!(cell.memory.dirty_pages().is_empty(), tick == 3);
        assert_eq!(cell.checkpoints.latest().is_some(), tick == 3);
    }
    assert_eq!(supervisor.replication_ring().unwrap().last_pushed_tick(), 3);
}

#[test]
fn full_ring_is_reported_between_checkpoints() {
    let mut supervisor = Supervisor::new(5);
    supervisor.enable_replication(1);
    supervisor.spawn_cell(config(1, 9), RecorderMode::Record).unwrap();
    let mut executor = writer();
    supervisor.run_one_cycle(&mut executor).unwrap();
    let refused = supervisor.run_one_cycle(&mut executor);
    assert!(matches!(
        refused,
        Err(SupervisorError::ReplicationBackpressure(1, RingError::Full(1)))
    ));
    assert!(supervisor.cell(1).unwrap().checkpoints.latest().is_none());
    assert_eq!(supervisor.replication_ring().unwrap().drain().len(), 1);
    executor.faulty.push(1);
    assert_eq!(supervisor.run_one_cycle(&mut executor).unwrap(), Some((1, 3)));
    assert!(supervisor.replication_ring().unwrap().drain().is_empty());
}

#[test]
fn two_hosts_take_the_same_checkpoints() {
    let mut hashes = Vec::new();
    for _ in 0..2 {
        let mut supervisor = Supervisor::new(10);
        supervisor.spawn_cell(config(1, 2), RecorderMode::Record).unwrap();
        let mut executor = writer();
        for _ in 0..6 {
            supervisor.run_one_cycle(&mut executor).unwrap();
        }
        hashes.push(supervisor.cell(1).unwrap().checkpoints.latest().unwrap().chain_hash);
    }
    assert_eq!(hashes[0], hashes[1]);
}

#[test]
fn standby_mirrors_every_flush() {
    let mut cell = make_cell(1);
    let mut ring = Some(DeltaRing::new(8));
    let mut copies = DeltaEngine::new(0);
    let mut mirrored: HashMap<u64, [u8; PAGE_SIZE]> = HashMap::new();
    cell.memory.grow(15).unwrap();
    for (tick, page) in [(1u64, 2u64), (2, 3), (3, 2), (4, 15)] {
        cell.memory.store(page as u32 * 4096 + tick as u32, &[tick as u8]).unwrap();
        cell.memory.mark_dirty(page);
        flush_checkpoint(&mut cell, tick, Digest::of(b"pc"), &mut ring).unwrap();
    }
    for batch in ring.as_mut().unwrap().drain() {
        for delta in &batch.deltas {
            mirrored.insert(delta.page_idx(), copies.apply(delta));
        }
    }
    let mut tree = SparseMerkleTree::new();
    for page in 0..16u64 {
        let copy = mirrored.get(&page).copied().unwrap_or([0u8; PAGE_SIZE]);
        assert_eq!(&copy[..], cell.memory.page_bytes(page));
        tree.update_leaf(page, &copy);
    }
    assert_eq!(cell.checkpoints.latest().unwrap().smt_root, tree.root());
}

#[test]
fn refused_flush_is_made_up_for_by_the_next() {
    let mut cell = make_cell(1);
    let mut ring = Some(DeltaRing::new(1));
    cell.memory.mark_dirty(0);
    flush_checkpoint(&mut cell, 1, Digest::of(b"a"), &mut ring).unwrap();
    cell.memory.mark_dirty(4);
    let refused = flush_checkpoint(&mut cell, 2, Digest::of(b"b"), &mut ring);
    assert_eq!(refused, Err(RingError::Full(1)));
    assert_eq!(ring.as_ref().unwrap().last_pushed_tick(), 1);
    assert_eq!(ring.as_mut().unwrap().drain().len(), 1);
    cell.memory.mark_dirty(5);
    flush_checkpoint(&mut cell, 3, Digest::of(b"c"), &mut ring).unwrap();
    let batches = ring.as_mut().unwrap().drain();
    let pages: Vec<u64> = batches[0].deltas.iter().map(|d| d.page_idx()).collect();
    assert_eq!(pages, vec![4, 5]);
}

/// Stores the time of the host in each quantum. Given a log, it replays it.
struct ClockReader {
    quanta: u64,
    host_time: u64,
    log: Option<Vec<(u64, u64, ReplayEntry)>>,
    recorded: Vec<(u64, u64, ReplayEntry)>,
}

impl QuantumExecutor for ClockReader {
    fn run_quantum(&mut self, cell: &mut Cell, max_instructions: u64) -> Result<u64, QuantumFault> {
        if let Some(log) = self.log.take() {
            cell.recorder = EventRecorder::from_replay_log(log);
        }
        self.quanta += 1;
        let host_time = self.host_time + self.quanta;
        let now = cell
            .recorder
            .wall_clock_now(self.quanta, || host_time)
            .map_err(|_| QuantumFault::Trap("log is truncated".to_string()))?;
        cell.memory.store(8 * self.quanta as u32, &now.to_le_bytes())?;
        cell.memory.mark_dirty(0);
        self.recorded = cell.recorder.export_log();
        Ok(max_instructions)
    }

    fn register_digest(&self, _cell: &Cell) -> Digest {
        Digest::of(&self.quanta.to_le_bytes())
    }
}

#[test]
fn replaying_host_takes_the_checkpoints_of_the_recording_host() {
    let mut log = None;
    let mut chains = Vec::new();
    for (mode, host_time) in [(RecorderMode::Record, 1000u64), (RecorderMode::Replay, 77)] {
        let mut supervisor = Supervisor::new(10);
        supervisor.enable_replication(9);
        supervisor.spawn_cell(config(1, 2), mode).unwrap();
        let mut executor =
            ClockReader { quanta: 0, host_time, log: log.take(), recorded: Vec::new() };
        let mut chain = Vec::new();
        for _ in 0..6 {
            let answer = supervisor.run_one_cycle(&mut executor).unwrap();
            let latest = supervisor.cell(1).unwrap().checkpoints.latest().map(|e| e.chain_hash);
            chain.push((answer, latest));
        }
        let batches: Vec<_> =
            supervisor.replication_ring().unwrap().drain().into_iter().map(|b| b.deltas).collect();
        chains.push((chain, batches));
        log = Some(executor.recorded);
    }
    assert!(chains[0].0[5].1.is_some());
    assert!(chains[0] == chains[1]);
}

/// Does nothing.
struct Idle;

impl QuantumExecutor for Idle {
    fn run_quantum(&mut self, _cell: &mut Cell, _max: u64) -> Result<u64, QuantumFault> {
        Ok(0)
    }

    fn register_digest(&self, _cell: &Cell) -> Digest {
        Digest::of(b"idle")
    }
}

#[test]
fn nothing_dirty_nothing_streamed_between_checkpoints() {
    let mut supervisor = Supervisor::new(5);
    supervisor.enable_replication(1);
    supervisor.spawn_cell(config(1, 4), RecorderMode::Record).unwrap();
    for tick in 1..=3u64 {
        assert_eq!(supervisor.run_one_cycle(&mut Idle).unwrap(), Some((1, tick)));
    }
    assert!(supervisor.replication_ring().unwrap().drain().is_empty());
    // A flush at a checkpoint always sends a batch.
    assert_eq!(supervisor.run_one_cycle(&mut Idle).unwrap(), Some((1, 4)));
    let batches = supervisor.replication_ring().unwrap().drain();
    assert_eq!(batches.len(), 1);
    assert!(batches[0].deltas.is_empty());
}

#[test]
fn memory_faults_become_quantum_faults() {
    let fault = QuantumFault::from(MemFault::LayoutOverflow);
    assert!(matches!(fault, QuantumFault::Memory(MemFault::LayoutOverflow)));
}
