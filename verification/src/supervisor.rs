//! The supervisor owns all cells, the scheduler and the optional replication
//! ring, and drives one dispatch, checkpoint and replication cycle at a time.
//!
//! What executing a quantum means is left to a `QuantumExecutor`: the
//! supervisor is the structure around the engine that runs guest bytecode.

use std::collections::hash_map::Entry;
use std::collections::HashMap;
use vstd::prelude::*;

use crate::cell::{Cell, CellConfig, CellId};
use crate::delta::{copy_or_zero, page_from_slice, zeros, PageDelta};
use crate::digest::{blake3_bytes, blake3_digest, Digest};
use crate::dirty::{law_listing_is_complete_and_unique, lists_ascending};
use crate::event_log::RecorderMode;
use crate::guarded_memory::{
    is_fresh, is_refusal, page_of, region_fits, GuardedMemory, MemFault, MmapGuardedMemory,
    PAGE_SIZE,
};
use crate::io::IoCompletion;
use crate::replicate::{
    apply_all, in_order, later_tick, standby_after, DeltaRing, RingError, TickBatch,
};
use crate::scheduler::{rotated, Scheduler};
use crate::smt::{
    all_leaves, chain_hash_of, claim_of, claims_of, law_chain_links_checkpoints,
    law_rehashing_dirty_pages_suffices, leaf_hash_of, lemma_same_leaves_same_root, merkle_root,
    rehashed, same_outside,
};

verus! {

#[derive(Debug, Clone)]
pub enum SupervisorError {
    /// The cell is already registered.
    DuplicateCell(CellId),
    /// Memory allocation failed for the cell.
    MemoryInit(CellId, MemFault),
    /// The replication ring was full while the cell was flushed.
    ReplicationBackpressure(CellId, RingError),
}

#[derive(Debug, Clone)]
pub enum QuantumFault {
    /// The guest trapped.
    Trap(String),
    /// The guest touched memory that it may not touch.
    Memory(MemFault),
}

impl From<MemFault> for QuantumFault {
    fn from(fault: MemFault) -> (quantum_fault: Self) {
        QuantumFault::Memory(fault)
    }
}

impl vstd::std_specs::convert::FromSpecImpl<MemFault> for QuantumFault {
    open spec fn obeys_from_spec() -> bool {
        true
    }

    open spec fn from_spec(fault: MemFault) -> Self {
        QuantumFault::Memory(fault)
    }
}

/// Implemented by whatever executes guest bytecode for one quantum. The
/// supervisor calls it once per dispatch.
pub trait QuantumExecutor<M: GuardedMemory = MmapGuardedMemory>: Sized {
    /// Running `cell` for a quantum may take executor and cell to `after` and
    /// `cell_after` and return `outcome`. An executor that says nothing of it
    /// may do anything.
    open spec fn ran(
        before: Self,
        cell: Cell<M>,
        max_instructions: u64,
        after: Self,
        cell_after: Cell<M>,
        outcome: Result<u64, QuantumFault>,
    ) -> bool {
        true
    }

    /// `digest` may be the digest of the register state of `cell`.
    open spec fn digests(&self, cell: Cell<M>, digest: Digest) -> bool {
        true
    }

    /// Run up to `max_instructions` guest instructions of `cell`, from where
    /// it left off. Returns how many were executed, or a fault.
    fn run_quantum(&mut self, cell: &mut Cell<M>, max_instructions: u64) -> (outcome: Result<
        u64,
        QuantumFault,
    >)
        ensures
            Self::ran(
                *old(self),
                *old(cell),
                max_instructions,
                *final(self),
                *final(cell),
                outcome,
            ),
    ;

    /// A digest of the cell's current register state, to be folded into the
    /// next checkpoint.
    fn register_digest(&self, cell: &Cell<M>) -> (digest: Digest)
        ensures
            self.digests(*cell, digest),
    ;
}

/// `deltas` carry the dirty pages of a region, whole and in ascending order.
pub open spec fn is_snapshot(deltas: Seq<PageDelta>, region: Seq<u8>, dirty: Set<u64>) -> bool {
    &&& lists_ascending(deltas.map_values(|d: PageDelta| d.page()), dirty)
    &&& forall|i: int|
        0 <= i < deltas.len() ==> (#[trigger] deltas[i]) is Raw && deltas[i]->bytes@ == page_of(
            region,
            deltas[i].page(),
        )
}

/// `after` is `before` with all its completions drained.
pub open spec fn is_drained<M>(before: Cell<M>, after: Cell<M>) -> bool {
    &&& after.pending_io@ == Seq::<IoCompletion>::empty()
    &&& after.config == before.config
    &&& after.memory == before.memory
    &&& after.recorder == before.recorder
    &&& after.checkpoints == before.checkpoints
    &&& after.fd_table == before.fd_table
    &&& after.last_checkpoint_tick == before.last_checkpoint_tick
}

/// `after` is `before` with a checkpoint taken at `tick`: the dirty pages
/// hashed anew, and one more entry in the chain.
pub open spec fn is_checkpointed<M: GuardedMemory>(
    before: Cell<M>,
    after: Cell<M>,
    tick: u64,
    register_digest: Digest,
) -> bool {
    let entries = after.checkpoints.entries();
    &&& after.config == before.config
    &&& after.recorder == before.recorder
    &&& after.fd_table == before.fd_table
    &&& after.pending_io == before.pending_io
    &&& after.memory.region() == before.memory.region()
    &&& after.memory.bounds() == before.memory.bounds()
    &&& after.memory.page_count() == before.memory.page_count()
    &&& after.last_checkpoint_tick == tick
    &&& after.checkpoints.leaves() == rehashed(
        before.checkpoints.leaves(),
        before.memory.region(),
        before.memory.dirty(),
    )
    &&& entries == before.checkpoints.entries().push(entries.last())
    &&& entries.last().tick == tick
    &&& entries.last().smt_root@ == merkle_root(after.checkpoints.leaves())
    &&& entries.last().register_digest == register_digest
    &&& entries.last().chain_hash@ == chain_hash_of(claims_of(entries))
}

/// The ring took a batch for `tick` with the dirty pages of the region.
pub open spec fn is_streamed(
    before: DeltaRing,
    after: DeltaRing,
    tick: u64,
    region: Seq<u8>,
    dirty: Set<u64>,
) -> bool {
    &&& after.capacity() == before.capacity()
    &&& after.last_tick() == later_tick(before.last_tick(), tick)
    &&& after.batches() == before.batches().push(after.batches().last())
    &&& after.batches().last().tick == tick
    &&& is_snapshot(after.batches().last().deltas@, region, dirty)
}

/// Two rings hold the same.
pub open spec fn same_ring(before: DeltaRing, after: DeltaRing) -> bool {
    &&& after.batches() == before.batches()
    &&& after.capacity() == before.capacity()
    &&& after.last_tick() == before.last_tick()
}

/// What offering the dirty pages to `ring` at `tick` does: where there is a
/// ring, it takes a batch with them, or refuses it and stays as it is if it is
/// full.
pub open spec fn is_offered(
    ring: Option<DeltaRing>,
    ring_after: Option<DeltaRing>,
    tick: u64,
    region: Seq<u8>,
    dirty: Set<u64>,
    offered: Result<(), RingError>,
) -> bool {
    &&& ring_after is Some == ring is Some
    &&& ring is None ==> offered is Ok
    &&& ring is Some && ring->Some_0.batches().len() < ring->Some_0.capacity() ==> {
        &&& offered is Ok
        &&& is_streamed(ring->Some_0, ring_after->Some_0, tick, region, dirty)
    }
    &&& ring is Some && ring->Some_0.batches().len() >= ring->Some_0.capacity() ==> {
        &&& offered == Err::<(), RingError>(RingError::Full(ring->Some_0.capacity()))
        &&& same_ring(ring->Some_0, ring_after->Some_0)
    }
}

/// What a flush at `tick` does: a checkpoint in any case; then the dirty pages
/// are offered to the ring; and then the pages are clean. A full ring ends the
/// flush before the pages are clean.
pub open spec fn is_flushed<M: GuardedMemory>(
    before: Cell<M>,
    after: Cell<M>,
    ring: Option<DeltaRing>,
    ring_after: Option<DeltaRing>,
    tick: u64,
    register_digest: Digest,
    flushed: Result<(), RingError>,
) -> bool {
    &&& is_checkpointed(before, after, tick, register_digest)
    &&& is_offered(
        ring,
        ring_after,
        tick,
        before.memory.region(),
        before.memory.dirty(),
        flushed,
    )
    &&& flushed is Ok ==> after.memory.dirty() == Set::<u64>::empty()
    &&& flushed is Err ==> after.memory.dirty() == before.memory.dirty()
}

/// The dirty pages of a memory, whole and in ascending order.
fn snapshot_dirty_pages<M: GuardedMemory>(memory: &M) -> (deltas: Vec<PageDelta>)
    ensures
        is_snapshot(deltas@, memory.region(), memory.dirty()),
{
    let pages = memory.dirty_pages().iter_dirty();
    let mut deltas: Vec<PageDelta> = Vec::new();
    let mut i: usize = 0;
    while i < pages.len()
        invariant
            i <= pages@.len(),
            lists_ascending(pages@, memory.dirty()),
            forall|p: u64| #[trigger] pages@.contains(p) ==> p < memory.page_count(),
            deltas@.len() == i,
            forall|j: int|
                0 <= j < i ==> (#[trigger] deltas@[j]) is Raw && deltas@[j].page() == pages@[j]
                    && deltas@[j]->bytes@ == page_of(memory.region(), pages@[j]),
        decreases pages@.len() - i,
    {
        let page_idx: u64 = pages[i];
        assert(pages@.contains(page_idx));
        let bytes = page_from_slice(memory.page_bytes(page_idx));
        deltas.push(PageDelta::Raw { page_idx, bytes });
        i += 1;
    }
    assert(deltas@.map_values(|d: PageDelta| d.page()) =~= pages@);
    deltas
}

/// Streams the dirty pages of `memory` at `tick` to `ring`, where there is one.
/// They stay dirty: the next checkpoint needs them too.
pub fn stream_dirty_pages<M: GuardedMemory>(
    memory: &M,
    tick: u64,
    ring: &mut Option<DeltaRing>,
) -> (offered: Result<(), RingError>)
    ensures
        is_offered(*old(ring), *final(ring), tick, memory.region(), memory.dirty(), offered),
{
    match ring {
        None => Ok(()),
        Some(delta_ring) => {
            let deltas = snapshot_dirty_pages(memory);
            delta_ring.push(TickBatch { tick, deltas })
        },
    }
}

/// Takes a checkpoint of `cell` at `tick` and streams its dirty pages to
/// `ring`, where there is one. The pages count as clean once both have
/// consumed them.
pub fn flush_checkpoint<M: GuardedMemory>(
    cell: &mut Cell<M>,
    tick: u64,
    register_digest: Digest,
    ring: &mut Option<DeltaRing>,
) -> (flushed: Result<(), RingError>)
    ensures
        is_flushed(
            *old(cell),
            *final(cell),
            *old(ring),
            *final(ring),
            tick,
            register_digest,
            flushed,
        ),
{
    let dirty = cell.memory.dirty_pages();
    cell.checkpoints.checkpoint(tick, &cell.memory, dirty, register_digest);
    cell.last_checkpoint_tick = tick;
    let offered = stream_dirty_pages(&cell.memory, tick, ring);
    if offered.is_ok() {
        clear_cell_dirty_pages(cell);
    }
    offered
}

/// Makes all pages of a cell count as clean.
fn clear_cell_dirty_pages<M: GuardedMemory>(cell: &mut Cell<M>)
    ensures
        final(cell).memory.dirty() == Set::<u64>::empty(),
        final(cell).memory.region() == old(cell).memory.region(),
        final(cell).memory.bounds() == old(cell).memory.bounds(),
        final(cell).memory.page_count() == old(cell).memory.page_count(),
        *final(cell) == (Cell { memory: final(cell).memory, ..*old(cell) }),
{
    cell.memory.clear_dirty_pages();
}

/// What a cycle that dispatched cell `id` in `tick` returns, once the ring
/// answered.
pub open spec fn answer_of(id: CellId, tick: u64, flushed: Result<(), RingError>) -> Result<
    Option<(CellId, u64)>,
    SupervisorError,
> {
    match flushed {
        Ok(()) => Ok(Some((id, tick))),
        Err(error) => Err(SupervisorError::ReplicationBackpressure(id, error)),
    }
}

/// How a cycle that dispatched cell `id` in `tick` ends, once the quantum was
/// run with `outcome`. A fault leaves it at that. Where a checkpoint is due,
/// the cell is flushed, with a digest that the executor gives. Where none is
/// due, this tick's dirty pages, if there are any, are streamed, and the cell
/// is left as it is, its pages dirty until the next checkpoint.
pub open spec fn is_settled<M: GuardedMemory, E: QuantumExecutor<M>>(
    executor: E,
    ran: Cell<M>,
    outcome: Result<u64, QuantumFault>,
    due: bool,
    after: Cell<M>,
    ring: Option<DeltaRing>,
    ring_after: Option<DeltaRing>,
    id: CellId,
    tick: u64,
    cycle: Result<Option<(CellId, u64)>, SupervisorError>,
) -> bool {
    if outcome is Err {
        after == ran && ring_after == ring && cycle == answer_of(id, tick, Ok(()))
    } else if due {
        exists|digest: Digest, flushed: Result<(), RingError>|
            executor.digests(ran, digest) && #[trigger] is_flushed(
                ran,
                after,
                ring,
                ring_after,
                tick,
                digest,
                flushed,
            ) && cycle == answer_of(id, tick, flushed)
    } else if ran.memory.dirty() == Set::<u64>::empty() {
        after == ran && ring_after == ring && cycle == answer_of(id, tick, Ok(()))
    } else {
        exists|offered: Result<(), RingError>|
            after == ran && #[trigger] is_offered(
                ring,
                ring_after,
                tick,
                ran.memory.region(),
                ran.memory.dirty(),
                offered,
            ) && cycle == answer_of(id, tick, offered)
    }
}

/// Owns all cells and drives their dispatch.
pub struct Supervisor<M = MmapGuardedMemory> {
    cells: HashMap<CellId, Cell<M>>,
    scheduler: Scheduler,
    replication: Option<DeltaRing>,
    max_instructions_per_quantum: u64,
}

impl Supervisor<MmapGuardedMemory> {
    pub fn new(max_instructions_per_quantum: u64) -> (supervisor: Self)
        ensures
            supervisor.is_new(max_instructions_per_quantum),
            supervisor.wf(),
    {
        Supervisor::with_quantum(max_instructions_per_quantum)
    }

    /// Makes a cell, with a region of its own, and adds it at the end of the
    /// rotation, if the host grants the memory.
    pub fn spawn_cell(&mut self, config: CellConfig, mode: RecorderMode) -> (spawned: Result<
        (),
        SupervisorError,
    >)
        requires
            old(self).wf(),
        ensures
            final(self).wf(),
            final(self).tick() == old(self).tick(),
            final(self).ring() == old(self).ring(),
            final(self).quantum() == old(self).quantum(),
            spawned is Ok ==> {
                &&& region_fits(config.initial_memory_bytes, config.quota_bytes)
                &&& final(self).order() == old(self).order().push(config.id)
                &&& final(self).cells().contains_key(config.id)
                &&& final(self).cells() == old(self).cells().insert(
                    config.id,
                    final(self).cells()[config.id],
                )
                &&& final(self).cells()[config.id].is_new(config, mode)
                &&& final(self).cells()[config.id].recorder@.mode == mode
                &&& is_fresh(
                    final(self).cells()[config.id].memory,
                    config.initial_memory_bytes,
                    config.quota_bytes,
                )
            },
            spawned is Err ==> {
                &&& final(self).order() == old(self).order()
                &&& final(self).cells() == old(self).cells()
            },
            old(self).cells().contains_key(config.id) ==> spawned == Err::<(), SupervisorError>(
                SupervisorError::DuplicateCell(config.id),
            ),
            spawned is Err && !old(self).cells().contains_key(config.id) ==> {
                &&& spawned->Err_0 is MemoryInit
                &&& spawned->Err_0->MemoryInit_0 == config.id
                &&& is_refusal(
                    spawned->Err_0->MemoryInit_1,
                    config.initial_memory_bytes,
                    config.quota_bytes,
                )
            },
    {
        broadcast use vstd::std_specs::hash::group_hash_axioms;

        let id: CellId = config.id;
        if self.cells.contains_key(&id) {
            return Err(SupervisorError::DuplicateCell(id));
        }
        match MmapGuardedMemory::new(config.initial_memory_bytes, config.quota_bytes) {
            Err(fault) => Err(SupervisorError::MemoryInit(id, fault)),
            Ok(memory) => self.adopt_cell(config, mode, memory),
        }
    }
}

impl<M: GuardedMemory> Supervisor<M> {
    /// The cells by id.
    pub closed spec fn cells(&self) -> Map<CellId, Cell<M>> {
        self.cells@
    }

    /// The cells in the order in which they are dispatched next.
    pub closed spec fn order(&self) -> Seq<CellId> {
        self.scheduler.order()
    }

    /// The number of quanta dispatched so far.
    pub closed spec fn tick(&self) -> u64 {
        self.scheduler.tick()
    }

    /// The replication ring, where replication is enabled.
    pub closed spec fn ring(&self) -> Option<DeltaRing> {
        self.replication
    }

    /// The instructions in a quantum.
    pub closed spec fn quantum(&self) -> u64 {
        self.max_instructions_per_quantum
    }

    /// Every cell is in the rotation, once, and nothing else is.
    pub open spec fn wf(&self) -> bool {
        &&& self.order().no_duplicates()
        &&& forall|id: CellId| #[trigger]
            self.order().contains(id) <==> self.cells().contains_key(id)
    }

    /// There are no cells, nothing was dispatched, and there is no ring.
    pub open spec fn is_new(&self, max_instructions_per_quantum: u64) -> bool {
        &&& self.cells() == Map::<CellId, Cell<M>>::empty()
        &&& self.order() == Seq::<CellId>::empty()
        &&& self.tick() == 0
        &&& self.ring() is None
        &&& self.quantum() == max_instructions_per_quantum
    }

    /// A supervisor for cells on any kind of memory.
    pub fn with_quantum(max_instructions_per_quantum: u64) -> (supervisor: Self)
        ensures
            supervisor.is_new(max_instructions_per_quantum),
            supervisor.wf(),
    {
        broadcast use vstd::std_specs::hash::group_hash_axioms;

        let supervisor = Supervisor {
            cells: HashMap::new(),
            scheduler: Scheduler::new(Vec::new()),
            replication: None,
            max_instructions_per_quantum,
        };
        assert(supervisor.cells() =~= Map::<CellId, Cell<M>>::empty());
        assert(supervisor.order() =~= Seq::<CellId>::empty());
        supervisor
    }

    /// Enable replication with a ring for `ring_capacity` batches. A ring that
    /// was there before is dropped with what it holds.
    pub fn enable_replication(&mut self, ring_capacity: usize)
        requires
            0 < ring_capacity,
            ring_capacity * 64 <= isize::MAX,
        ensures
            final(self).cells() == old(self).cells(),
            final(self).order() == old(self).order(),
            final(self).tick() == old(self).tick(),
            final(self).quantum() == old(self).quantum(),
            final(self).ring() is Some,
            final(self).ring()->Some_0.batches() == Seq::<TickBatch>::empty(),
            final(self).ring()->Some_0.capacity() == ring_capacity,
            final(self).ring()->Some_0.last_tick() == 0,
    {
        self.replication = Some(DeltaRing::new(ring_capacity));
    }

    /// Makes a cell on the given memory and adds it at the end of the
    /// rotation.
    pub fn adopt_cell(&mut self, config: CellConfig, mode: RecorderMode, memory: M) -> (
        adopted: Result<(), SupervisorError>)
        requires
            old(self).wf(),
        ensures
            final(self).wf(),
            final(self).tick() == old(self).tick(),
            final(self).ring() == old(self).ring(),
            final(self).quantum() == old(self).quantum(),
            old(self).cells().contains_key(config.id) ==> {
                &&& adopted == Err::<(), SupervisorError>(SupervisorError::DuplicateCell(config.id))
                &&& final(self).order() == old(self).order()
                &&& final(self).cells() == old(self).cells()
            },
            !old(self).cells().contains_key(config.id) ==> {
                &&& adopted is Ok
                &&& final(self).order() == old(self).order().push(config.id)
                &&& final(self).cells().contains_key(config.id)
                &&& final(self).cells() == old(self).cells().insert(
                    config.id,
                    final(self).cells()[config.id],
                )
                &&& final(self).cells()[config.id].is_new(config, mode)
                &&& final(self).cells()[config.id].recorder@.mode == mode
                &&& final(self).cells()[config.id].memory == memory
            },
    {
        broadcast use vstd::std_specs::hash::group_hash_axioms;

        let id: CellId = config.id;
        if self.cells.contains_key(&id) {
            return Err(SupervisorError::DuplicateCell(id));
        }
        let cell = Cell::with_memory(config, mode, memory);
        self.cells.insert(id, cell);
        self.scheduler.register_cell(id);
        proof {
            let before = old(self).order();
            assert forall|other: CellId| #[trigger]
                self.order().contains(other) <==> before.contains(other) || other == id by {
                if before.contains(other) {
                    let i = choose|i: int| 0 <= i < before.len() && before[i] == other;
                    assert(self.order()[i] == other);
                }
                assert(self.order()[before.len() as int] == id);
            }
            assert(!before.contains(id));
        }
        Ok(())
    }

    pub fn cell(&self, id: CellId) -> (cell: Option<&Cell<M>>)
        ensures
            cell == (if self.cells().contains_key(id) {
                Some(&self.cells()[id])
            } else {
                None
            }),
    {
        broadcast use vstd::std_specs::hash::group_hash_axioms;

        self.cells.get(&id)
    }

    /// The replication ring, for the consumer that drains it.
    pub fn replication_ring(&mut self) -> (ring: Option<&mut DeltaRing>)
        ensures
            ring is Some == old(self).ring() is Some,
            ring is Some ==> *ring->Some_0 == old(self).ring()->Some_0 && final(self).ring()
                == Some(*final(ring->Some_0)),
            ring is None ==> final(self).ring() is None,
            final(self).cells() == old(self).cells(),
            final(self).order() == old(self).order(),
            final(self).tick() == old(self).tick(),
            final(self).quantum() == old(self).quantum(),
    {
        match &mut self.replication {
            Some(ring) => Some(ring),
            None => None,
        }
    }

    /// Run exactly one dispatch cycle: pick the next cell in rotation, drain
    /// the completions accumulated since its last dispatch, execute one
    /// quantum, take a checkpoint if one is due, and, if replication is
    /// enabled, flush this tick's dirty pages to the ring. The completions that
    /// were drained are dropped: nobody receives them yet. No other cell is
    /// touched, whatever the quantum does.
    ///
    /// Returns the dispatched cell and its tick, or `None` if there are no
    /// cells. A cell that faults is dispatched like any other, but neither
    /// checkpointed nor replicated.
    pub fn run_one_cycle<E: QuantumExecutor<M>>(&mut self, executor: &mut E) -> (cycle: Result<
        Option<(CellId, u64)>,
        SupervisorError,
    >)
        requires
            old(self).wf(),
            old(self).order().len() > 0 ==> old(self).tick() < u64::MAX,
        ensures
            is_cycle(*old(self), *old(executor), *final(self), *final(executor), cycle),
            final(self).wf(),
    {
        broadcast use vstd::std_specs::hash::group_hash_axioms;

        let dispatch = match self.scheduler.next_dispatch(&self.cells) {
            None => return Ok(None),
            Some(dispatch) => dispatch,
        };
        let id: CellId = dispatch.cell_id;
        let tick: u64 = dispatch.tick;
        proof {
            lemma_rotation_keeps_cells(old(self).order());
            assert(old(self).order().contains(id));
        }
        let cell = match self.cells.entry(id) {
            Entry::Vacant(_) => {
                assert(false);
                return Ok(None);
            },
            Entry::Occupied(entry) => entry.into_mut(),
        };
        cell.pending_io.drain_for_dispatch();
        let ghost drained = *cell;
        let outcome = executor.run_quantum(cell, self.max_instructions_per_quantum);
        let ghost ran = *cell;
        assert(E::ran(*old(executor), drained, old(self).quantum(), *executor, ran, outcome));
        if outcome.is_err() {
            return Ok(Some((id, tick)));
        }
        let flushed = if dispatch.checkpoint_due {
            let register_digest = executor.register_digest(cell);
            flush_checkpoint(cell, tick, register_digest, &mut self.replication)
        } else if cell.memory.dirty_pages().is_empty() {
            Ok(())
        } else {
            stream_dirty_pages(&cell.memory, tick, &mut self.replication)
        };
        match flushed {
            Ok(()) => Ok(Some((id, tick))),
            Err(error) => Err(SupervisorError::ReplicationBackpressure(id, error)),
        }
    }
}

/// What one cycle does. Without cells, nothing. Otherwise the first cell of the
/// rotation is dispatched in the next tick: its completions are drained, it is
/// run for a quantum, and the cycle is settled. Every other cell stays as it
/// is.
pub open spec fn is_cycle<M: GuardedMemory, E: QuantumExecutor<M>>(
    before: Supervisor<M>,
    executor: E,
    after: Supervisor<M>,
    executor_after: E,
    cycle: Result<Option<(CellId, u64)>, SupervisorError>,
) -> bool {
    let id = before.order().first();
    let tick = after.tick();
    &&& after.quantum() == before.quantum()
    &&& before.order().len() == 0 ==> {
        &&& cycle == Ok::<Option<(CellId, u64)>, SupervisorError>(None)
        &&& after.cells() == before.cells()
        &&& after.order() == before.order()
        &&& after.tick() == before.tick()
        &&& after.ring() == before.ring()
        &&& executor_after == executor
    }
    &&& before.order().len() > 0 ==> {
        &&& tick == before.tick() + 1
        &&& after.order() == rotated(before.order())
        &&& after.cells() == before.cells().insert(id, after.cells()[id])
        &&& exists|drained: Cell<M>, ran: Cell<M>, outcome: Result<u64, QuantumFault>|
            is_drained(before.cells()[id], drained) && #[trigger] E::ran(
                executor,
                drained,
                before.quantum(),
                executor_after,
                ran,
                outcome,
            ) && is_settled(
                executor_after,
                ran,
                outcome,
                before.cells()[id].due(tick),
                after.cells()[id],
                before.ring(),
                after.ring(),
                id,
                tick,
                cycle,
            )
    }
}

/// Rotation keeps the cells that are in the order, each once.
proof fn lemma_rotation_keeps_cells(order: Seq<CellId>)
    requires
        order.len() > 0,
        order.no_duplicates(),
    ensures
        rotated(order).no_duplicates(),
        forall|id: CellId| #[trigger] rotated(order).contains(id) <==> order.contains(id),
{
    let after = rotated(order);
    let n = order.len() as int;
    assert forall|i: int| 0 <= i < n - 1 implies #[trigger] after[i] == order[i + 1] by {}
    assert(after[n - 1] == order[0]);
    assert forall|id: CellId| #[trigger] after.contains(id) <==> order.contains(id) by {
        if order.contains(id) {
            let i = choose|i: int| 0 <= i < n && order[i] == id;
            if i > 0 {
                assert(after[i - 1] == id);
            }
        }
    }
}

/// A standby holds the same pages as a region, where a page that it never
/// received counts as zero bytes.
pub open spec fn mirrors(copies: Map<u64, Seq<u8>>, region: Seq<u8>, page_count: u64) -> bool {
    forall|p: u64|
        p < page_count ==> copy_or_zero(copies, p) == #[trigger] page_of(region, p)
}

/// The leaves of the tree that a standby computes over its own copies.
pub open spec fn leaves_of_copies(copies: Map<u64, Seq<u8>>) -> Map<u64, Seq<u8>> {
    copies.map_values(|page: Seq<u8>| blake3_bytes(page))
}

/// A flush carries over the dirty pages: once its deltas are applied, the
/// standby has these pages as the region has them, and every other page as
/// before.
pub proof fn law_snapshot_carries_dirty_pages(
    copies: Map<u64, Seq<u8>>,
    deltas: Seq<PageDelta>,
    region: Seq<u8>,
    dirty: Set<u64>,
)
    requires
        is_snapshot(deltas, region, dirty),
    ensures
        forall|p: u64| #[trigger]
            apply_all(copies, deltas).contains_key(p) <==> copies.contains_key(p)
                || dirty.contains(p),
        forall|p: u64| #[trigger]
            dirty.contains(p) ==> apply_all(copies, deltas)[p] == page_of(region, p),
        forall|p: u64|
            copies.contains_key(p) && !dirty.contains(p) ==> #[trigger] apply_all(copies, deltas)[p]
                == copies[p],
{
    let pages = deltas.map_values(|d: PageDelta| d.page());
    lemma_raw_deltas(copies, deltas, region);
    assert forall|p: u64| pages.contains(p) implies exists|i: int|
        0 <= i < deltas.len() && (#[trigger] deltas[i]).page() == p by {
        let i = choose|i: int| 0 <= i < pages.len() && pages[i] == p;
        assert(deltas[i].page() == p);
    }
    assert forall|i: int| 0 <= i < deltas.len() implies pages.contains(
        (#[trigger] deltas[i]).page(),
    ) by {
        assert(pages[i] == deltas[i].page());
    }
    assert forall|p: u64| #[trigger] dirty.contains(p) implies apply_all(copies, deltas)[p]
        == page_of(region, p) by {
        assert(pages.contains(p));
    }
    assert forall|p: u64| #[trigger]
        apply_all(copies, deltas).contains_key(p) <==> copies.contains_key(p) || dirty.contains(
            p,
        ) by {
        assert(pages.contains(p) <==> dirty.contains(p));
    }
    assert forall|p: u64|
        copies.contains_key(p) && !dirty.contains(p) implies #[trigger] apply_all(
        copies,
        deltas,
    )[p] == copies[p] by {
        assert(!pages.contains(p));
    }
}

/// Raw deltas put whole pages in place of the copies.
proof fn lemma_raw_deltas(copies: Map<u64, Seq<u8>>, deltas: Seq<PageDelta>, region: Seq<u8>)
    requires
        forall|i: int|
            0 <= i < deltas.len() ==> (#[trigger] deltas[i]) is Raw && deltas[i]->bytes@ == page_of(
                region,
                deltas[i].page(),
            ),
    ensures
        forall|p: u64| #[trigger]
            apply_all(copies, deltas).contains_key(p) <==> copies.contains_key(p) || exists|i: int|
                0 <= i < deltas.len() && (#[trigger] deltas[i]).page() == p,
        forall|i: int|
            0 <= i < deltas.len() ==> apply_all(copies, deltas)[(#[trigger] deltas[i]).page()]
                == page_of(region, deltas[i].page()),
        forall|p: u64|
            (forall|i: int| 0 <= i < deltas.len() ==> (#[trigger] deltas[i]).page() != p)
                ==> #[trigger] apply_all(copies, deltas)[p] == copies[p],
    decreases deltas.len(),
{
    if deltas.len() > 0 {
        let rest = deltas.drop_last();
        let last = deltas.last();
        assert forall|i: int| 0 <= i < rest.len() implies (#[trigger] rest[i]) is Raw
            && rest[i]->bytes@ == page_of(region, rest[i].page()) by {
            assert(deltas[i] == rest[i]);
        }
        lemma_raw_deltas(copies, rest, region);
        assert(deltas[deltas.len() - 1] == last);
        let before = apply_all(copies, rest);
        let after = apply_all(copies, deltas);
        assert(after == before.insert(last.page(), page_of(region, last.page())));
        assert forall|p: u64| #[trigger] after.contains_key(p) <==> copies.contains_key(p)
            || exists|i: int| 0 <= i < deltas.len() && (#[trigger] deltas[i]).page() == p by {
            if exists|i: int| 0 <= i < deltas.len() && (#[trigger] deltas[i]).page() == p {
                let i = choose|i: int| 0 <= i < deltas.len() && (#[trigger] deltas[i]).page() == p;
                if i < rest.len() {
                    assert(rest[i].page() == p);
                    assert(before.contains_key(p));
                }
            }
            if after.contains_key(p) && !copies.contains_key(p) && p != last.page() {
                assert(before.contains_key(p));
                let i = choose|i: int| 0 <= i < rest.len() && (#[trigger] rest[i]).page() == p;
                assert(deltas[i].page() == p);
            }
            if copies.contains_key(p) {
                assert(before.contains_key(p));
            }
        }
        assert forall|i: int| 0 <= i < deltas.len() implies after[(#[trigger] deltas[i]).page()]
            == page_of(region, deltas[i].page()) by {
            if deltas[i].page() != last.page() {
                assert(rest[i] == deltas[i]);
            }
        }
        assert forall|p: u64|
            (forall|i: int| 0 <= i < deltas.len() ==> (#[trigger] deltas[i]).page()
                != p) implies #[trigger] after[p] == copies[p] by {
            assert forall|i: int| 0 <= i < rest.len() implies (#[trigger] rest[i]).page() != p by {
                assert(deltas[i] == rest[i]);
            }
            assert(before[p] == copies[p]);
        }
    }
}

/// A standby that mirrors the primary's memory mirrors it again once it has
/// applied the next flush, provided that every page that changed meanwhile was
/// dirty.
pub proof fn law_standby_keeps_mirroring(
    copies: Map<u64, Seq<u8>>,
    before: Seq<u8>,
    after: Seq<u8>,
    page_count: u64,
    dirty: Set<u64>,
    deltas: Seq<PageDelta>,
)
    requires
        mirrors(copies, before, page_count),
        same_outside(before, after, page_count, dirty),
        is_snapshot(deltas, after, dirty),
    ensures
        mirrors(apply_all(copies, deltas), after, page_count),
{
    law_snapshot_carries_dirty_pages(copies, deltas, after, dirty);
    let applied = apply_all(copies, deltas);
    assert forall|p: u64| p < page_count implies copy_or_zero(applied, p) == #[trigger] page_of(
        after,
        p,
    ) by {
        assert(applied.contains_key(p) <==> copies.contains_key(p) || dirty.contains(p));
        if !dirty.contains(p) {
            assert(page_of(after, p) == page_of(before, p));
            assert(copy_or_zero(copies, p) == page_of(before, p));
        }
    }
}

/// A standby that mirrors a cell's memory, and is handed the batches that the
/// cell streams next, with ticks going up, mirrors the memory as it was at the
/// last of them. `regions` are the memory at the start and at each batch, and
/// `dirty` the pages that were dirty at each batch.
pub proof fn law_standby_mirrors_every_flush(
    copies: Map<u64, Seq<u8>>,
    last: Option<u64>,
    regions: Seq<Seq<u8>>,
    dirty: Seq<Set<u64>>,
    batches: Seq<TickBatch>,
    page_count: u64,
)
    requires
        mirrors(copies, regions[0], page_count),
        regions.len() == batches.len() + 1,
        dirty.len() == batches.len(),
        forall|i: int|
            0 <= i < batches.len() ==> same_outside(
                regions[i],
                regions[i + 1],
                page_count,
                #[trigger] dirty[i],
            ),
        forall|i: int|
            0 <= i < batches.len() ==> is_snapshot(
                (#[trigger] batches[i]).deltas@,
                regions[i + 1],
                dirty[i],
            ),
        batches.len() > 0 ==> in_order(last, batches[0].tick),
        forall|i: int, j: int|
            0 <= i < j < batches.len() ==> (#[trigger] batches[i]).tick < (
            #[trigger] batches[j]).tick,
    ensures
        mirrors(standby_after(copies, last, batches).0, regions.last(), page_count),
        batches.len() > 0 ==> standby_after(copies, last, batches).1 == Some(
            batches.last().tick,
        ),
    decreases batches.len(),
{
    if batches.len() > 0 {
        let n = batches.len() - 1;
        let rest = batches.drop_last();
        assert forall|i: int| 0 <= i < rest.len() implies same_outside(
            regions.drop_last()[i],
            regions.drop_last()[i + 1],
            page_count,
            #[trigger] dirty.drop_last()[i],
        ) by {
            assert(dirty.drop_last()[i] == dirty[i]);
        }
        assert forall|i: int| 0 <= i < rest.len() implies is_snapshot(
            (#[trigger] rest[i]).deltas@,
            regions.drop_last()[i + 1],
            dirty.drop_last()[i],
        ) by {
            assert(rest[i] == batches[i]);
        }
        assert forall|i: int, j: int| 0 <= i < j < rest.len() implies (#[trigger] rest[i]).tick < (
        #[trigger] rest[j]).tick by {
            assert(rest[i] == batches[i] && rest[j] == batches[j]);
        }
        law_standby_mirrors_every_flush(
            copies,
            last,
            regions.drop_last(),
            dirty.drop_last(),
            rest,
            page_count,
        );
        assert(batches.last() == batches[n]);
        if n > 0 {
            assert(rest.last() == batches[n - 1]);
        }
        assert(dirty[n] == dirty.last());
        law_standby_keeps_mirroring(
            standby_after(copies, last, rest).0,
            regions[n],
            regions[n + 1],
            page_count,
            dirty[n],
            batches[n].deltas@,
        );
    }
}

/// A standby without copies mirrors a memory of zero bytes.
pub proof fn law_new_standby_mirrors_zero_memory(page_count: u64)
    ensures
        mirrors(Map::empty(), zeros((page_count * PAGE_SIZE) as nat), page_count),
{
    let region = zeros((page_count * PAGE_SIZE) as nat);
    assert forall|p: u64| p < page_count implies copy_or_zero(Map::empty(), p)
        == #[trigger] page_of(region, p) by {
        assert(p * PAGE_SIZE + PAGE_SIZE <= page_count * PAGE_SIZE) by (nonlinear_arith)
            requires
                p < page_count,
        ;
        assert(page_of(region, p) =~= crate::delta::zero_page());
    }
}

/// A standby that mirrors the primary's memory computes the primary's root
/// from its own copies.
pub proof fn law_mirroring_standby_has_same_root(
    copies: Map<u64, Seq<u8>>,
    region: Seq<u8>,
    page_count: u64,
)
    requires
        mirrors(copies, region, page_count),
        forall|p: u64| #[trigger] copies.contains_key(p) ==> p < page_count,
    ensures
        merkle_root(leaves_of_copies(copies)) == merkle_root(all_leaves(region, page_count)),
{
    let a = leaves_of_copies(copies);
    let b = all_leaves(region, page_count);
    assert forall|k: int| #[trigger] leaf_hash_of(a, k) == leaf_hash_of(b, k) by {
        if 0 <= k < page_count {
            assert(copy_or_zero(copies, k as u64) == page_of(region, k as u64));
        } else if 0 <= k <= u64::MAX {
            assert(!copies.contains_key(k as u64));
        }
    }
    lemma_same_leaves_same_root(a, b);
}

/// The root of a checkpoint vouches for the whole memory, though only the
/// dirty pages were hashed: where the leaves stood for the memory as it was at
/// the last checkpoint, and every page that changed since is dirty, the new
/// root is that of the memory as it is now.
pub proof fn law_checkpoint_vouches_for_memory<M: GuardedMemory>(
    before: Cell<M>,
    after: Cell<M>,
    tick: u64,
    register_digest: Digest,
    last_region: Seq<u8>,
)
    requires
        is_checkpointed(before, after, tick, register_digest),
        forall|k: int|
            #[trigger] leaf_hash_of(before.checkpoints.leaves(), k) == leaf_hash_of(
                all_leaves(last_region, before.memory.page_count()),
                k,
            ),
        same_outside(
            last_region,
            before.memory.region(),
            before.memory.page_count(),
            before.memory.dirty(),
        ),
        forall|p: u64| #[trigger]
            before.memory.dirty().contains(p) ==> p < before.memory.page_count(),
    ensures
        after.checkpoints.entries().last().smt_root@ == merkle_root(
            all_leaves(after.memory.region(), after.memory.page_count()),
        ),
{
    law_rehashing_dirty_pages_suffices(
        before.checkpoints.leaves(),
        last_region,
        before.memory.region(),
        before.memory.page_count(),
        before.memory.dirty(),
    );
}

/// Checkpoints are deterministic: two hosts that agree on the memory, the
/// dirty pages, the leaves and the chain of a cell, and on the tick and the
/// register digest, take checkpoints with the same root and the same chain
/// hash.
pub proof fn law_checkpoints_are_deterministic<M: GuardedMemory>(
    a: Cell<M>,
    a_after: Cell<M>,
    b: Cell<M>,
    b_after: Cell<M>,
    tick: u64,
    register_digest: Digest,
)
    requires
        is_checkpointed(a, a_after, tick, register_digest),
        is_checkpointed(b, b_after, tick, register_digest),
        a.memory.region() == b.memory.region(),
        a.memory.dirty() == b.memory.dirty(),
        a.checkpoints.leaves() == b.checkpoints.leaves(),
        a.checkpoints.entries() == b.checkpoints.entries(),
    ensures
        a_after.checkpoints.leaves() == b_after.checkpoints.leaves(),
        a_after.checkpoints.entries().last().smt_root@
            == b_after.checkpoints.entries().last().smt_root@,
        a_after.checkpoints.entries().last().chain_hash@
            == b_after.checkpoints.entries().last().chain_hash@,
{
    let (x, y) = (a_after.checkpoints.entries(), b_after.checkpoints.entries());
    assert(claims_of(x).drop_last() =~= claims_of(a.checkpoints.entries()));
    assert(claims_of(y).drop_last() =~= claims_of(b.checkpoints.entries()));
    assert(claims_of(x).last() == claim_of(x.last()));
    assert(claims_of(y).last() == claim_of(y.last()));
}

/// A snapshot carries every dirty page once, in ascending order, and of each
/// the bytes that the region holds at its place.
pub proof fn law_snapshot_holds_the_bytes(
    deltas: Seq<PageDelta>,
    region: Seq<u8>,
    dirty: Set<u64>,
    i: int,
    j: int,
)
    requires
        is_snapshot(deltas, region, dirty),
        0 <= i < deltas.len(),
        0 <= j < PAGE_SIZE,
    ensures
        deltas[i] is Raw,
        dirty.contains(deltas[i].page()),
        deltas[i].page() * PAGE_SIZE + PAGE_SIZE <= region.len() ==> deltas[i]->bytes[j]
            == region[deltas[i].page() * PAGE_SIZE + j],
        forall|k: int| 0 <= k < i ==> (#[trigger] deltas[k]).page() < deltas[i].page(),
        forall|p: u64| #[trigger]
            dirty.contains(p) ==> exists|k: int|
                0 <= k < deltas.len() && (#[trigger] deltas[k]).page() == p,
        deltas.len() == dirty.len(),
{
    let pages = deltas.map_values(|d: PageDelta| d.page());
    law_listing_is_complete_and_unique(pages, pages, dirty);
    assert(pages[i] == deltas[i].page());
    assert(pages.contains(pages[i]));
    assert forall|k: int| 0 <= k < i implies (#[trigger] deltas[k]).page()
        < deltas[i].page() by {
        assert(pages[k] < pages[i]);
    }
    assert forall|p: u64| #[trigger] dirty.contains(p) implies exists|k: int|
        0 <= k < deltas.len() && (#[trigger] deltas[k]).page() == p by {
        assert(pages.contains(p));
        let k = choose|k: int| 0 <= k < pages.len() && pages[k] == p;
        assert(deltas[k].page() == p);
    }
}

/// Offering dirty pages fails exactly if there is a ring and it is full, and
/// then the ring stays as it is. Otherwise a ring has one batch more, of this
/// tick and with these pages, behind those that it had.
pub proof fn law_offer_adds_one_batch(
    ring: Option<DeltaRing>,
    ring_after: Option<DeltaRing>,
    tick: u64,
    region: Seq<u8>,
    dirty: Set<u64>,
    offered: Result<(), RingError>,
)
    requires
        is_offered(ring, ring_after, tick, region, dirty, offered),
    ensures
        offered is Err <==> ring is Some && ring->Some_0.batches().len()
            >= ring->Some_0.capacity(),
        offered is Err ==> offered->Err_0 == RingError::Full(ring->Some_0.capacity()),
        ring_after is Some <==> ring is Some,
        ring is Some ==> ring_after->Some_0.capacity() == ring->Some_0.capacity(),
        offered is Err ==> {
            &&& ring_after->Some_0.batches() == ring->Some_0.batches()
            &&& ring_after->Some_0.last_tick() == ring->Some_0.last_tick()
        },
        offered is Ok && ring is Some ==> {
            let (before, after) = (ring->Some_0.batches(), ring_after->Some_0.batches());
            &&& after.len() == before.len() + 1
            &&& forall|i: int| 0 <= i < before.len() ==> #[trigger] after[i] == before[i]
            &&& after[before.len() as int].tick == tick
            &&& is_snapshot(after[before.len() as int].deltas@, region, dirty)
            &&& ring_after->Some_0.last_tick() >= tick
            &&& ring_after->Some_0.last_tick() >= ring->Some_0.last_tick()
            &&& ring_after->Some_0.last_tick() == tick || ring_after->Some_0.last_tick()
                == ring->Some_0.last_tick()
        },
{
    if offered is Ok && ring is Some {
        let (before, after) = (ring->Some_0.batches(), ring_after->Some_0.batches());
        assert(after.last() == after[before.len() as int]);
    }
}

/// A checkpoint appends one entry, of its tick and with the register digest
/// that it was given, whether or not any page is dirty. The entry's root is
/// that of the leaves with the dirty pages hashed anew, and its hash links it
/// to the entries before. Nothing else of the cell changes but the tick of the
/// last checkpoint, and which pages are dirty.
pub proof fn law_checkpoint_appends_one_entry<M: GuardedMemory>(
    before: Cell<M>,
    after: Cell<M>,
    tick: u64,
    register_digest: Digest,
)
    requires
        is_checkpointed(before, after, tick, register_digest),
    ensures
        ({
            let old_entries = before.checkpoints.entries();
            let entries = after.checkpoints.entries();
            let entry = entries[old_entries.len() as int];
            &&& entries.len() == old_entries.len() + 1
            &&& forall|i: int| 0 <= i < old_entries.len() ==> #[trigger] entries[i]
                == old_entries[i]
            &&& entry.tick == tick
            &&& entry.register_digest == register_digest
            &&& entry.smt_root@ == merkle_root(after.checkpoints.leaves())
            &&& entry.chain_hash@ == blake3_digest(
                chain_hash_of(claims_of(old_entries)) + entry.smt_root@ + register_digest@
                    + vstd::bytes::spec_u64_to_le_bytes(tick),
            )@
        }),
        after.checkpoints.leaves() == rehashed(
            before.checkpoints.leaves(),
            before.memory.region(),
            before.memory.dirty(),
        ),
        after.last_checkpoint_tick == tick,
        after.config == before.config,
        after.recorder == before.recorder,
        after.fd_table == before.fd_table,
        after.pending_io == before.pending_io,
        after.memory.region() == before.memory.region(),
        after.memory.bounds() == before.memory.bounds(),
        after.memory.page_count() == before.memory.page_count(),
{
    let (old_entries, entries) = (before.checkpoints.entries(), after.checkpoints.entries());
    assert(entries.last() == entries[old_entries.len() as int]);
    assert(claims_of(entries) =~= claims_of(old_entries).push(claim_of(entries.last())));
    law_chain_links_checkpoints(
        claims_of(old_entries),
        tick,
        entries.last().smt_root,
        register_digest,
    );
}

/// A flush takes a checkpoint and offers the pages that were dirty; they are
/// clean afterwards exactly if the ring did not refuse them.
pub proof fn law_flush_checkpoints_and_offers<M: GuardedMemory>(
    before: Cell<M>,
    after: Cell<M>,
    ring: Option<DeltaRing>,
    ring_after: Option<DeltaRing>,
    tick: u64,
    register_digest: Digest,
    flushed: Result<(), RingError>,
)
    requires
        is_flushed(before, after, ring, ring_after, tick, register_digest, flushed),
    ensures
        is_checkpointed(before, after, tick, register_digest),
        is_offered(
            ring,
            ring_after,
            tick,
            before.memory.region(),
            before.memory.dirty(),
            flushed,
        ),
        flushed is Ok ==> forall|p: u64| !#[trigger] after.memory.dirty().contains(p),
        flushed is Err ==> after.memory.dirty() == before.memory.dirty(),
{
}

/// A new supervisor is empty, and one that is in order has each of its cells
/// in the rotation once.
pub proof fn law_rotation_lists_the_cells<M: GuardedMemory>(
    supervisor: Supervisor<M>,
    quantum: u64,
    i: int,
    j: int,
)
    ensures
        supervisor.is_new(quantum) ==> {
            &&& supervisor.order().len() == 0
            &&& forall|id: CellId| !#[trigger] supervisor.cells().contains_key(id)
            &&& supervisor.tick() == 0
            &&& supervisor.ring() is None
            &&& supervisor.quantum() == quantum
        },
        supervisor.wf() && 0 <= i < j < supervisor.order().len() ==> supervisor.order()[i]
            != supervisor.order()[j],
        supervisor.wf() && 0 <= i < supervisor.order().len() ==> supervisor.cells().contains_key(
            supervisor.order()[i],
        ),
        supervisor.wf() ==> forall|id: CellId| #[trigger]
            supervisor.cells().contains_key(id) ==> exists|k: int|
                0 <= k < supervisor.order().len() && supervisor.order()[k] == id,
{
    if supervisor.wf() {
        assert forall|id: CellId| #[trigger] supervisor.cells().contains_key(id) implies exists|
            k: int,
        | 0 <= k < supervisor.order().len() && supervisor.order()[k] == id by {
            assert(supervisor.order().contains(id));
        }
        if 0 <= i < supervisor.order().len() {
            assert(supervisor.order().contains(supervisor.order()[i]));
        }
    }
}

} // verus!
