//! What cycles come to: which cell a cycle runs and what becomes of it, and
//! that no cell goes without a checkpoint for long.

use vstd::prelude::*;

use crate::cell::{law_checkpoint_is_due_after_interval, Cell, CellId};
use crate::determinism::{is_run, Answer};
use crate::digest::Digest;
use crate::guarded_memory::GuardedMemory;
use crate::replicate::{DeltaRing, RingError};
use crate::scheduler::{law_dispatch_moves_first_to_back, law_round_robin, rotated, rotated_by};
use crate::supervisor::{
    answer_of, is_cycle, is_drained, is_flushed, is_offered, is_settled,
    law_checkpoint_appends_one_entry, law_offer_adds_one_batch, QuantumExecutor, QuantumFault,
    Supervisor, SupervisorError,
};

verus! {

/// What a cycle went through: the cell as it was handed to the executor and as
/// it came back, what the quantum returned, the register digest, if one was
/// asked for, and what the ring answered, if it was offered anything.
pub struct CycleTrace<M> {
    pub drained: Cell<M>,
    pub ran: Cell<M>,
    pub outcome: Result<u64, QuantumFault>,
    pub digest: Digest,
    pub offered: Result<(), RingError>,
}

/// Without cells, a cycle does nothing and says so.
pub proof fn law_cycle_without_cells_does_nothing<M: GuardedMemory, E: QuantumExecutor<M>>(
    before: Supervisor<M>,
    executor: E,
    after: Supervisor<M>,
    executor_after: E,
    cycle: Answer,
)
    requires
        is_cycle(before, executor, after, executor_after, cycle),
        before.order().len() == 0,
    ensures
        cycle == Ok::<Option<(CellId, u64)>, SupervisorError>(None),
        after.cells() == before.cells(),
        after.order().len() == 0,
        after.tick() == before.tick(),
        after.ring() == before.ring(),
        after.quantum() == before.quantum(),
        executor_after == executor,
{
}

/// A cycle runs the cell that is first in the rotation, in the next tick. That
/// cell goes to the back, every other moves up, and none but the first is
/// touched. The answer names the cell and the tick, or the cell and the full
/// ring.
pub proof fn law_cycle_runs_the_first_cell<M: GuardedMemory, E: QuantumExecutor<M>>(
    before: Supervisor<M>,
    executor: E,
    after: Supervisor<M>,
    executor_after: E,
    cycle: Answer,
)
    requires
        is_cycle(before, executor, after, executor_after, cycle),
        before.wf(),
        before.order().len() > 0,
    ensures
        after.tick() == before.tick() + 1,
        after.quantum() == before.quantum(),
        after.order().len() == before.order().len(),
        after.order()[before.order().len() - 1] == before.order()[0],
        forall|i: int|
            0 <= i < before.order().len() - 1 ==> #[trigger] after.order()[i] == before.order()[i
                + 1],
        after.cells().dom() == before.cells().dom(),
        forall|other: CellId| #[trigger]
            before.cells().contains_key(other) && other != before.order()[0]
                ==> after.cells()[other] == before.cells()[other],
        cycle is Ok ==> cycle->Ok_0 == Some((before.order()[0], after.tick())),
        cycle is Err ==> {
            &&& before.ring() is Some
            &&& before.ring()->Some_0.batches().len() >= before.ring()->Some_0.capacity()
            &&& cycle->Err_0 == SupervisorError::ReplicationBackpressure(
                before.order()[0],
                RingError::Full(before.ring()->Some_0.capacity()),
            )
        },
{
    assert(before.order().contains(before.order()[0]));
    assert(after.cells().dom() =~= before.cells().dom());
    law_dispatch_moves_first_to_back(before.order());
    let _ = law_cycle_settles(before, executor, after, executor_after, cycle);
}

/// What becomes of the cell that a cycle runs. It is handed to the executor
/// with its completions drained and otherwise as it was, for one quantum. A
/// fault ends the cycle there. Without one:
/// - if an interval has passed since its last checkpoint, a checkpoint is taken,
///   dirty pages or not: one entry more, of this tick, with a digest of the
///   executor, and the pages are offered to the ring;
/// - if none has, the cell stays as it came back, and its pages are offered to
///   the ring if any are dirty.
/// What is offered is refused by a full ring alone, and the cycle errs exactly
/// then.
pub proof fn law_cycle_settles<M: GuardedMemory, E: QuantumExecutor<M>>(
    before: Supervisor<M>,
    executor: E,
    after: Supervisor<M>,
    executor_after: E,
    cycle: Answer,
) -> (trace: CycleTrace<M>)
    requires
        is_cycle(before, executor, after, executor_after, cycle),
        before.order().len() > 0,
    ensures
        ({
            let id = before.order()[0];
            let cell = before.cells()[id];
            let cell_after = after.cells()[id];
            let tick = after.tick();
            let passed = if tick > cell.last_checkpoint_tick {
                tick - cell.last_checkpoint_tick
            } else {
                0
            };
            let due = passed >= cell.config.checkpoint_interval_ticks;
            let CycleTrace { drained, ran, outcome, digest, offered } = trace;
            &&& tick == before.tick() + 1
            &&& E::ran(executor, drained, before.quantum(), executor_after, ran, outcome)
            // As it was, but for the completions.
            &&& drained.pending_io@.len() == 0
            &&& drained.config == cell.config
            &&& drained.memory == cell.memory
            &&& drained.recorder == cell.recorder
            &&& drained.checkpoints == cell.checkpoints
            &&& drained.fd_table == cell.fd_table
            &&& drained.last_checkpoint_tick == cell.last_checkpoint_tick
            // A fault.
            &&& outcome is Err ==> {
                &&& cell_after == ran
                &&& after.ring() == before.ring()
                &&& cycle == Ok::<_, SupervisorError>(Some((id, tick)))
            }
            // A checkpoint.
            &&& outcome is Ok && due ==> {
                let entries = cell_after.checkpoints.entries();
                &&& executor_after.digests(ran, digest)
                &&& is_flushed(
                    ran,
                    cell_after,
                    before.ring(),
                    after.ring(),
                    tick,
                    digest,
                    offered,
                )
                &&& entries.len() == ran.checkpoints.entries().len() + 1
                &&& entries.last().tick == tick
                &&& entries.last().register_digest == digest
                &&& cell_after.last_checkpoint_tick == tick
                &&& cell_after.config == ran.config
            }
            // No checkpoint.
            &&& outcome is Ok && !due ==> cell_after == ran
            // What the ring gets.
            &&& outcome is Ok && (due || exists|p: u64| ran.memory.dirty().contains(p)) ==> {
                &&& is_offered(
                    before.ring(),
                    after.ring(),
                    tick,
                    ran.memory.region(),
                    ran.memory.dirty(),
                    offered,
                )
                &&& cycle is Err <==> before.ring() is Some
                    && before.ring()->Some_0.batches().len() >= before.ring()->Some_0.capacity()
            }
            &&& outcome is Ok && !due && !(exists|p: u64| ran.memory.dirty().contains(p)) ==> {
                &&& after.ring() == before.ring()
                &&& cycle is Ok
            }
            &&& cycle is Ok ==> cycle->Ok_0 == Some((id, tick))
            &&& cycle is Err ==> {
                &&& before.ring() is Some
                &&& before.ring()->Some_0.batches().len() >= before.ring()->Some_0.capacity()
                &&& cycle->Err_0 == SupervisorError::ReplicationBackpressure(
                    id,
                    RingError::Full(before.ring()->Some_0.capacity()),
                )
            }
        }),
{
    let id = before.order().first();
    let tick = after.tick();
    let cell = before.cells()[id];
    let (ring, ring_after) = (before.ring(), after.ring());
    let (drained, ran, outcome) = choose|
        drained: Cell<M>,
        ran: Cell<M>,
        outcome: Result<u64, QuantumFault>,
    |
        is_drained(cell, drained) && #[trigger] E::ran(
            executor,
            drained,
            before.quantum(),
            executor_after,
            ran,
            outcome,
        ) && is_settled(
            executor_after,
            ran,
            outcome,
            cell.due(tick),
            after.cells()[id],
            ring,
            ring_after,
            id,
            tick,
            cycle,
        );
    let (region, dirty) = (ran.memory.region(), ran.memory.dirty());
    let clean = !(exists|p: u64| dirty.contains(p));
    if clean {
        assert(dirty =~= Set::<u64>::empty());
    }
    if outcome is Ok && cell.due(tick) {
        let (digest, flushed) = choose|digest: Digest, flushed: Result<(), RingError>|
            executor_after.digests(ran, digest) && #[trigger] is_flushed(
                ran,
                after.cells()[id],
                ring,
                ring_after,
                tick,
                digest,
                flushed,
            ) && cycle == answer_of(id, tick, flushed);
        law_checkpoint_appends_one_entry(ran, after.cells()[id], tick, digest);
        law_offer_adds_one_batch(ring, ring_after, tick, region, dirty, flushed);
        CycleTrace { drained, ran, outcome, digest, offered: flushed }
    } else if outcome is Ok && !clean {
        let offered = choose|offered: Result<(), RingError>|
            after.cells()[id] == ran && #[trigger] is_offered(
                ring,
                ring_after,
                tick,
                region,
                dirty,
                offered,
            ) && cycle == answer_of(id, tick, offered);
        law_offer_adds_one_batch(ring, ring_after, tick, region, dirty, offered);
        CycleTrace { drained, ran, outcome, digest: arbitrary(), offered }
    } else {
        CycleTrace { drained, ran, outcome, digest: arbitrary(), offered: Ok(()) }
    }
}

/// A checkpoint that is due is taken: under an executor that does not fault and
/// leaves the chain to the supervisor, a cycle in a tick at which an interval
/// has passed since the cell's last checkpoint gives its chain exactly one entry
/// more, of that tick and with a digest of the executor, whether or not any page
/// is dirty. One in an earlier tick gives it none.
pub proof fn law_due_checkpoint_is_taken<M: GuardedMemory, E: QuantumExecutor<M>>(
    before: Supervisor<M>,
    executor: E,
    after: Supervisor<M>,
    executor_after: E,
    cycle: Answer,
)
    requires
        is_cycle(before, executor, after, executor_after, cycle),
        before.order().len() > 0,
        before.cells()[before.order()[0]].last_checkpoint_tick <= after.tick(),
        forall|
            e: E,
            c: Cell<M>,
            max: u64,
            e_after: E,
            c_after: Cell<M>,
            o: Result<u64, QuantumFault>,
        |
            #[trigger] E::ran(e, c, max, e_after, c_after, o) ==> {
                &&& o is Ok
                &&& c_after.checkpoints == c.checkpoints
                &&& c_after.last_checkpoint_tick == c.last_checkpoint_tick
            },
    ensures
        ({
            let id = before.order()[0];
            let cell = before.cells()[id];
            let cell_after = after.cells()[id];
            let (old_entries, entries) = (
                cell.checkpoints.entries(),
                cell_after.checkpoints.entries(),
            );
            &&& after.tick() - cell.last_checkpoint_tick >= cell.config.checkpoint_interval_ticks
                ==> {
                &&& entries.len() == old_entries.len() + 1
                &&& forall|i: int| 0 <= i < old_entries.len() ==> #[trigger] entries[i]
                    == old_entries[i]
                &&& entries.last().tick == after.tick()
                &&& exists|ran: Cell<M>| #[trigger]
                    executor_after.digests(ran, entries.last().register_digest)
                &&& cell_after.last_checkpoint_tick == after.tick()
            }
            &&& after.tick() - cell.last_checkpoint_tick < cell.config.checkpoint_interval_ticks
                ==> {
                &&& entries == old_entries
                &&& cell_after.last_checkpoint_tick == cell.last_checkpoint_tick
            }
        }),
{
    let trace = law_cycle_settles(before, executor, after, executor_after, cycle);
    let id = before.order()[0];
    let cell = before.cells()[id];
    if after.tick() - cell.last_checkpoint_tick >= cell.config.checkpoint_interval_ticks {
        law_checkpoint_appends_one_entry(trace.ran, after.cells()[id], after.tick(), trace.digest);
        assert(executor_after.digests(
            trace.ran,
            after.cells()[id].checkpoints.entries().last().register_digest,
        ));
    }
}

/// A fault is never checkpointed or replicated: under an executor that always
/// faults, the cell is as the executor left it and the ring is as it was.
pub proof fn law_fault_is_not_flushed<M: GuardedMemory, E: QuantumExecutor<M>>(
    before: Supervisor<M>,
    executor: E,
    after: Supervisor<M>,
    executor_after: E,
    cycle: Answer,
)
    requires
        is_cycle(before, executor, after, executor_after, cycle),
        before.order().len() > 0,
        forall|
            e: E,
            c: Cell<M>,
            max: u64,
            e_after: E,
            c_after: Cell<M>,
            o: Result<u64, QuantumFault>,
        |
            #[trigger] E::ran(e, c, max, e_after, c_after, o) ==> o is Err && c_after.checkpoints
                == c.checkpoints && c_after.memory == c.memory,
    ensures
        cycle == Ok::<_, SupervisorError>(Some((before.order()[0], after.tick()))),
        after.ring() == before.ring(),
        after.cells()[before.order()[0]].checkpoints
            == before.cells()[before.order()[0]].checkpoints,
        after.cells()[before.order()[0]].memory == before.cells()[before.order()[0]].memory,
{
    let _ = law_cycle_settles(before, executor, after, executor_after, cycle);
}

/// Replication is of every tick: after a cycle without a fault that left pages
/// dirty, or at which a checkpoint was due, a ring with room holds one batch
/// more, of this tick.
pub proof fn law_every_tick_is_replicated<M: GuardedMemory, E: QuantumExecutor<M>>(
    before: Supervisor<M>,
    executor: E,
    after: Supervisor<M>,
    executor_after: E,
    cycle: Answer,
    ring: DeltaRing,
)
    requires
        is_cycle(before, executor, after, executor_after, cycle),
        before.order().len() > 0,
        before.ring() == Some(ring),
        ring.batches().len() < ring.capacity(),
        forall|
            e: E,
            c: Cell<M>,
            max: u64,
            e_after: E,
            c_after: Cell<M>,
            o: Result<u64, QuantumFault>,
        |
            #[trigger] E::ran(e, c, max, e_after, c_after, o) ==> o is Ok && exists|p: u64|
                c_after.memory.dirty().contains(p),
    ensures
        cycle == Ok::<_, SupervisorError>(Some((before.order()[0], after.tick()))),
        after.ring() is Some,
        after.ring()->Some_0.batches().len() == ring.batches().len() + 1,
        after.ring()->Some_0.batches()[ring.batches().len() as int].tick == after.tick(),
        after.ring()->Some_0.batches()[ring.batches().len() as int].deltas@.len() > 0,
{
    let trace = law_cycle_settles(before, executor, after, executor_after, cycle);
    let (region, dirty) = (trace.ran.memory.region(), trace.ran.memory.dirty());
    law_offer_adds_one_batch(
        before.ring(),
        after.ring(),
        after.tick(),
        region,
        dirty,
        trace.offered,
    );
    let deltas = after.ring()->Some_0.batches()[ring.batches().len() as int].deltas@;
    let pages = deltas.map_values(|d: crate::delta::PageDelta| d.page());
    let p = choose|p: u64| dirty.contains(p);
    assert(pages.contains(p));
}

/// How a run looks `i` cycles after state `k`, from the cell `id`: the rotation
/// has turned by `i`, `i` ticks have passed, and the cell was checkpointed
/// meanwhile or its last checkpoint is still the same.
proof fn lemma_run_from<M: GuardedMemory, E: QuantumExecutor<M>>(
    states: Seq<Supervisor<M>>,
    executors: Seq<E>,
    answers: Seq<Answer>,
    id: CellId,
    k: int,
    i: int,
)
    requires
        is_run(states, executors, answers),
        0 <= k,
        0 <= i,
        k + i <= answers.len(),
        k < answers.len(),
        states[k].order().contains(id),
        forall|
            e: E,
            c: Cell<M>,
            max: u64,
            e_after: E,
            c_after: Cell<M>,
            o: Result<u64, QuantumFault>,
        |
            #[trigger] E::ran(e, c, max, e_after, c_after, o) ==> {
                &&& o is Ok
                &&& c_after.config == c.config
                &&& c_after.last_checkpoint_tick == c.last_checkpoint_tick
            },
    ensures
        states[k + i].order() == rotated_by(states[k].order(), i as nat),
        states[k + i].order().len() == states[k].order().len(),
        states[k + i].tick() == states[k].tick() + i,
        states[k + i].cells()[id].config == states[k].cells()[id].config,
        states[k + i].cells()[id].last_checkpoint_tick
            == states[k].cells()[id].last_checkpoint_tick || exists|j: int|
            k < j <= k + i && (#[trigger] states[j]).cells()[id].last_checkpoint_tick
                == states[j].tick(),
    decreases i,
{
    if i > 0 {
        let m = k + i - 1;
        lemma_run_from(states, executors, answers, id, k, i - 1);
        let (before, after) = (states[m], states[m + 1]);
        assert(before.wf());
        assert(states[k].order().len() > 0);
        law_dispatch_moves_first_to_back(before.order());
        let trace = law_cycle_settles(before, executors[m], after, executors[m + 1], answers[m]);
        if before.order()[0] == id && after.cells()[id].last_checkpoint_tick
            != before.cells()[id].last_checkpoint_tick {
            assert(states[m + 1].cells()[id].last_checkpoint_tick == states[m + 1].tick());
        }
        assert(after == states[k + i]);
    }
}

/// No cell goes without a checkpoint for long. Under an executor that does not
/// fault and leaves the bookkeeping to the supervisor, a cell in a rotation of
/// `n` cells is checkpointed within its interval and `n` cycles more, whenever
/// one looks.
pub proof fn law_no_cell_goes_unchecked<M: GuardedMemory, E: QuantumExecutor<M>>(
    states: Seq<Supervisor<M>>,
    executors: Seq<E>,
    answers: Seq<Answer>,
    id: CellId,
    k: int,
)
    requires
        is_run(states, executors, answers),
        0 <= k < answers.len(),
        states[k].order().contains(id),
        states[k].cells()[id].last_checkpoint_tick <= states[k].tick(),
        k + states[k].cells()[id].config.checkpoint_interval_ticks + states[k].order().len()
            <= answers.len(),
        forall|
            e: E,
            c: Cell<M>,
            max: u64,
            e_after: E,
            c_after: Cell<M>,
            o: Result<u64, QuantumFault>,
        |
            #[trigger] E::ran(e, c, max, e_after, c_after, o) ==> {
                &&& o is Ok
                &&& c_after.config == c.config
                &&& c_after.last_checkpoint_tick == c.last_checkpoint_tick
            },
    ensures
        exists|j: int|
            k < j <= k + states[k].cells()[id].config.checkpoint_interval_ticks
                + states[k].order().len() && (#[trigger] states[j]).cells()[id].last_checkpoint_tick
                == states[j].tick(),
{
    let order = states[k].order();
    let n = order.len() as int;
    let interval = states[k].cells()[id].config.checkpoint_interval_ticks as int;
    let last = states[k].cells()[id].last_checkpoint_tick;
    let pos = choose|pos: int| 0 <= pos < n && order[pos] == id;
    // The first cycle, once the interval has passed, at which the cell is first.
    let i = interval + (pos - interval) % n;
    assert(0 <= (pos - interval) % n < n) by (nonlinear_arith)
        requires
            n > 0,
    ;
    assert(i % n == pos) by {
        vstd::arithmetic::div_mod::lemma_add_mod_noop_right(interval, pos - interval, n);
        vstd::arithmetic::div_mod::lemma_small_mod(pos as nat, n as nat);
    }
    lemma_run_from(states, executors, answers, id, k, i);
    law_round_robin(order, i as nat);
    let (before, after) = (states[k + i], states[k + i + 1]);
    assert(before.order().first() == id);
    assert(before.order()[0] == id);
    if before.cells()[id].last_checkpoint_tick == last {
        assert(before.wf());
        let _ = law_cycle_settles(
            before,
            executors[k + i],
            after,
            executors[k + i + 1],
            answers[k + i],
        );
        law_checkpoint_is_due_after_interval(before.cells()[id], after.tick());
        assert(states[k + i + 1].cells()[id].last_checkpoint_tick == states[k + i + 1].tick());
    } else {
        let j = choose|j: int|
            k < j <= k + i && (#[trigger] states[j]).cells()[id].last_checkpoint_tick
                == states[j].tick();
        assert(states[j].cells()[id].last_checkpoint_tick == states[j].tick());
    }
}

} // verus!
