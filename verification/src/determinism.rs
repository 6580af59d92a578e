//! Replayable determinism: two hosts whose supervisors start alike, with an
//! executor that does the same in the same situation, agree after every cycle.

use vstd::prelude::*;

use crate::cell::{Cell, CellId};
use crate::delta::PageDelta;
use crate::digest::Digest;
use crate::dirty::law_listing_is_complete_and_unique;
use crate::event_log::RecorderView;
use crate::guarded_memory::GuardedMemory;
use crate::replicate::{DeltaRing, RingError, TickBatch};
use crate::smt::{
    claim_bytes, claim_of, claims_of, lemma_chain_hash_is_of_bytes, CheckpointEntry,
};
use crate::supervisor::{
    answer_of, is_checkpointed, is_cycle, is_drained, is_flushed, is_offered, is_settled,
    is_snapshot, QuantumExecutor, QuantumFault, Supervisor, SupervisorError,
};

verus! {

/// What a cycle answers.
pub type Answer = Result<Option<(CellId, u64)>, SupervisorError>;

/// Two entries of a checkpoint chain say the same.
pub open spec fn same_entry(a: CheckpointEntry, b: CheckpointEntry) -> bool {
    &&& a.tick == b.tick
    &&& a.smt_root@ == b.smt_root@
    &&& a.register_digest@ == b.register_digest@
    &&& a.chain_hash@ == b.chain_hash@
}

/// Two checkpoint chains say the same.
pub open spec fn same_entries(a: Seq<CheckpointEntry>, b: Seq<CheckpointEntry>) -> bool {
    &&& a.len() == b.len()
    &&& forall|i: int| 0 <= i < a.len() ==> same_entry(#[trigger] a[i], b[i])
}

/// Two cells are in the same state, as far as it can be told. Their recorders
/// need only agree in the sense of `recorders`: they may be equal, or one may
/// record what the other replays (`in_step` in `event_log`).
pub open spec fn same_cell<M: GuardedMemory>(
    a: Cell<M>,
    b: Cell<M>,
    recorders: spec_fn(RecorderView, RecorderView) -> bool,
) -> bool {
    &&& a.config == b.config
    &&& a.memory.region() == b.memory.region()
    &&& a.memory.bounds() == b.memory.bounds()
    &&& a.memory.dirty() == b.memory.dirty()
    &&& a.memory.page_count() == b.memory.page_count()
    &&& recorders(a.recorder@, b.recorder@)
    &&& a.checkpoints.leaves() == b.checkpoints.leaves()
    &&& same_entries(a.checkpoints.entries(), b.checkpoints.entries())
    &&& a.fd_table@ == b.fd_table@
    &&& a.fd_table.next_fd() == b.fd_table.next_fd()
    &&& a.pending_io@ == b.pending_io@
    &&& a.last_checkpoint_tick == b.last_checkpoint_tick
}

/// Two deltas carry the same.
pub open spec fn same_delta(a: PageDelta, b: PageDelta) -> bool {
    match (a, b) {
        (PageDelta::Raw { page_idx: p, bytes: x }, PageDelta::Raw { page_idx: q, bytes: y }) => {
            p == q && x@ == y@
        },
        (PageDelta::Xor { page_idx: p, runs: x }, PageDelta::Xor { page_idx: q, runs: y }) => {
            &&& p == q
            &&& x@.len() == y@.len()
            &&& forall|i: int|
                0 <= i < x@.len() ==> (#[trigger] x@[i]).zero_run == y@[i].zero_run
                    && x@[i].literal@ == y@[i].literal@
        },
        _ => false,
    }
}

/// Two batches carry the same.
pub open spec fn same_batch(a: TickBatch, b: TickBatch) -> bool {
    &&& a.tick == b.tick
    &&& a.deltas@.len() == b.deltas@.len()
    &&& forall|i: int|
        0 <= i < a.deltas@.len() ==> same_delta(#[trigger] a.deltas@[i], b.deltas@[i])
}

/// Two rings hold the same.
pub open spec fn same_ring_contents(a: DeltaRing, b: DeltaRing) -> bool {
    &&& a.capacity() == b.capacity()
    &&& a.last_tick() == b.last_tick()
    &&& a.batches().len() == b.batches().len()
    &&& forall|i: int|
        0 <= i < a.batches().len() ==> same_batch(#[trigger] a.batches()[i], b.batches()[i])
}

/// Neither host replicates, or both do and their rings hold the same.
pub open spec fn same_replication(a: Option<DeltaRing>, b: Option<DeltaRing>) -> bool {
    match (a, b) {
        (None, None) => true,
        (Some(x), Some(y)) => same_ring_contents(x, y),
        _ => false,
    }
}

/// Two supervisors are in the same state, as far as it can be told.
pub open spec fn same_supervisor<M: GuardedMemory>(
    a: Supervisor<M>,
    b: Supervisor<M>,
    recorders: spec_fn(RecorderView, RecorderView) -> bool,
) -> bool {
    &&& a.order() == b.order()
    &&& a.tick() == b.tick()
    &&& a.quantum() == b.quantum()
    &&& same_replication(a.ring(), b.ring())
    &&& a.cells().dom() == b.cells().dom()
    &&& forall|id: CellId| #[trigger]
        a.cells().contains_key(id) ==> same_cell(a.cells()[id], b.cells()[id], recorders)
}

/// An executor does the same in the same situation: run on the same cell, two
/// executors that agree in the sense of `executors` leave the same cell, fault
/// or not alike, and agree afterwards; and they give the same digest.
pub open spec fn runs_alike<M: GuardedMemory, E: QuantumExecutor<M>>(
    recorders: spec_fn(RecorderView, RecorderView) -> bool,
    executors: spec_fn(E, E) -> bool,
) -> bool {
    &&& forall|
        a: E,
        cell_a: Cell<M>,
        max: u64,
        a_after: E,
        cell_a_after: Cell<M>,
        outcome_a: Result<u64, QuantumFault>,
        b: E,
        cell_b: Cell<M>,
        b_after: E,
        cell_b_after: Cell<M>,
        outcome_b: Result<u64, QuantumFault>,
    |
        executors(a, b) && same_cell(cell_a, cell_b, recorders) && #[trigger] E::ran(
            a,
            cell_a,
            max,
            a_after,
            cell_a_after,
            outcome_a,
        ) && #[trigger] E::ran(b, cell_b, max, b_after, cell_b_after, outcome_b) ==> {
            &&& executors(a_after, b_after)
            &&& same_cell(cell_a_after, cell_b_after, recorders)
            &&& outcome_a is Ok == outcome_b is Ok
        }
    &&& forall|a: E, cell_a: Cell<M>, digest_a: Digest, b: E, cell_b: Cell<M>, digest_b: Digest|
        executors(a, b) && same_cell(cell_a, cell_b, recorders) && #[trigger] a.digests(
            cell_a,
            digest_a,
        ) && #[trigger] b.digests(cell_b, digest_b) ==> digest_a@ == digest_b@
}

/// `states`, `executors` and `answers` are those of a run: each state but the
/// last is followed by the next through one cycle.
pub open spec fn is_run<M: GuardedMemory, E: QuantumExecutor<M>>(
    states: Seq<Supervisor<M>>,
    executors: Seq<E>,
    answers: Seq<Answer>,
) -> bool {
    &&& states.len() == answers.len() + 1
    &&& executors.len() == answers.len() + 1
    &&& forall|i: int|
        0 <= i < answers.len() ==> (#[trigger] states[i]).wf() && is_cycle(
            states[i],
            executors[i],
            states[i + 1],
            executors[i + 1],
            answers[i],
        )
}

proof fn lemma_snapshots_agree(
    a: Seq<PageDelta>,
    b: Seq<PageDelta>,
    region: Seq<u8>,
    dirty: Set<u64>,
)
    requires
        is_snapshot(a, region, dirty),
        is_snapshot(b, region, dirty),
    ensures
        a.len() == b.len(),
        forall|i: int| 0 <= i < a.len() ==> same_delta(#[trigger] a[i], b[i]),
{
    let pages_a = a.map_values(|d: PageDelta| d.page());
    let pages_b = b.map_values(|d: PageDelta| d.page());
    law_listing_is_complete_and_unique(pages_a, pages_b, dirty);
    assert forall|i: int| 0 <= i < a.len() implies same_delta(#[trigger] a[i], b[i]) by {
        assert(pages_a[i] == a[i].page());
        assert(pages_b[i] == b[i].page());
        assert(b[i] is Raw);
    }
}

proof fn lemma_offers_agree(
    a: Option<DeltaRing>,
    a_after: Option<DeltaRing>,
    offered_a: Result<(), RingError>,
    b: Option<DeltaRing>,
    b_after: Option<DeltaRing>,
    offered_b: Result<(), RingError>,
    tick: u64,
    region: Seq<u8>,
    dirty: Set<u64>,
)
    requires
        same_replication(a, b),
        is_offered(a, a_after, tick, region, dirty, offered_a),
        is_offered(b, b_after, tick, region, dirty, offered_b),
    ensures
        same_replication(a_after, b_after),
        offered_a is Ok == offered_b is Ok,
        offered_a is Err ==> offered_a->Err_0 == offered_b->Err_0,
{
    if a is Some && a->Some_0.batches().len() < a->Some_0.capacity() {
        let (x, y) = (a_after->Some_0.batches(), b_after->Some_0.batches());
        let n = a->Some_0.batches().len();
        lemma_snapshots_agree(x.last().deltas@, y.last().deltas@, region, dirty);
        assert forall|i: int| 0 <= i < x.len() implies same_batch(#[trigger] x[i], y[i]) by {
            if i < n {
                assert(x[i] == a->Some_0.batches()[i]);
                assert(y[i] == b->Some_0.batches()[i]);
            } else {
                assert(x[i] == x.last());
                assert(y[i] == y.last());
            }
        }
    } else if a is Some {
        let (x, y) = (a_after->Some_0.batches(), b_after->Some_0.batches());
        assert forall|i: int| 0 <= i < x.len() implies same_batch(#[trigger] x[i], y[i]) by {
            assert(x[i] == a->Some_0.batches()[i]);
        }
    }
}

proof fn lemma_checkpoints_agree<M: GuardedMemory>(
    a: Cell<M>,
    a_after: Cell<M>,
    digest_a: Digest,
    b: Cell<M>,
    b_after: Cell<M>,
    digest_b: Digest,
    tick: u64,
    recorders: spec_fn(RecorderView, RecorderView) -> bool,
)
    requires
        same_cell(a, b, recorders),
        is_checkpointed(a, a_after, tick, digest_a),
        is_checkpointed(b, b_after, tick, digest_b),
        digest_a@ == digest_b@,
        a_after.memory.dirty() == b_after.memory.dirty(),
    ensures
        same_cell(a_after, b_after, recorders),
{
    let (x, y) = (a_after.checkpoints.entries(), b_after.checkpoints.entries());
    let (x_before, y_before) = (a.checkpoints.entries(), b.checkpoints.entries());
    let n = x_before.len() as int;
    assert forall|i: int| 0 <= i < n implies same_entry(#[trigger] x[i], y[i]) by {
        assert(x[i] == x_before[i]);
        assert(y[i] == y_before[i]);
    }
    assert(x[n] == x.last() && y[n] == y.last());
    assert forall|i: int| 0 <= i < x.len() implies claim_bytes(#[trigger] claims_of(x)[i])
        == claim_bytes(claims_of(y)[i]) by {
        assert(claims_of(x)[i] == claim_of(x[i]));
        assert(claims_of(y)[i] == claim_of(y[i]));
        if i < n {
            assert(same_entry(x[i], y[i]));
        }
    }
    lemma_chain_hash_is_of_bytes(claims_of(x), claims_of(y));
}

proof fn lemma_settling_agrees<M: GuardedMemory, E: QuantumExecutor<M>>(
    executor_a: E,
    ran_a: Cell<M>,
    outcome_a: Result<u64, QuantumFault>,
    a_after: Cell<M>,
    ring_a: Option<DeltaRing>,
    ring_a_after: Option<DeltaRing>,
    answer_a: Answer,
    executor_b: E,
    ran_b: Cell<M>,
    outcome_b: Result<u64, QuantumFault>,
    b_after: Cell<M>,
    ring_b: Option<DeltaRing>,
    ring_b_after: Option<DeltaRing>,
    answer_b: Answer,
    due: bool,
    id: CellId,
    tick: u64,
    recorders: spec_fn(RecorderView, RecorderView) -> bool,
    executors: spec_fn(E, E) -> bool,
)
    requires
        runs_alike::<M, E>(recorders, executors),
        executors(executor_a, executor_b),
        same_cell(ran_a, ran_b, recorders),
        outcome_a is Ok == outcome_b is Ok,
        same_replication(ring_a, ring_b),
        is_settled(
            executor_a,
            ran_a,
            outcome_a,
            due,
            a_after,
            ring_a,
            ring_a_after,
            id,
            tick,
            answer_a,
        ),
        is_settled(
            executor_b,
            ran_b,
            outcome_b,
            due,
            b_after,
            ring_b,
            ring_b_after,
            id,
            tick,
            answer_b,
        ),
    ensures
        same_cell(a_after, b_after, recorders),
        same_replication(ring_a_after, ring_b_after),
        answer_a == answer_b,
{
    let region = ran_a.memory.region();
    let dirty = ran_a.memory.dirty();
    if outcome_a is Ok && due {
        let (digest_a, flushed_a) = choose|digest: Digest, flushed: Result<(), RingError>|
            executor_a.digests(ran_a, digest) && #[trigger] is_flushed(
                ran_a,
                a_after,
                ring_a,
                ring_a_after,
                tick,
                digest,
                flushed,
            ) && answer_a == answer_of(id, tick, flushed);
        let (digest_b, flushed_b) = choose|digest: Digest, flushed: Result<(), RingError>|
            executor_b.digests(ran_b, digest) && #[trigger] is_flushed(
                ran_b,
                b_after,
                ring_b,
                ring_b_after,
                tick,
                digest,
                flushed,
            ) && answer_b == answer_of(id, tick, flushed);
        lemma_offers_agree(
            ring_a,
            ring_a_after,
            flushed_a,
            ring_b,
            ring_b_after,
            flushed_b,
            tick,
            region,
            dirty,
        );
        lemma_checkpoints_agree(
            ran_a,
            a_after,
            digest_a,
            ran_b,
            b_after,
            digest_b,
            tick,
            recorders,
        );
    } else if outcome_a is Ok && dirty != Set::<u64>::empty() {
        let offered_a = choose|offered: Result<(), RingError>|
            a_after == ran_a && #[trigger] is_offered(
                ring_a,
                ring_a_after,
                tick,
                region,
                dirty,
                offered,
            ) && answer_a == answer_of(id, tick, offered);
        let offered_b = choose|offered: Result<(), RingError>|
            b_after == ran_b && #[trigger] is_offered(
                ring_b,
                ring_b_after,
                tick,
                region,
                dirty,
                offered,
            ) && answer_b == answer_of(id, tick, offered);
        lemma_offers_agree(
            ring_a,
            ring_a_after,
            offered_a,
            ring_b,
            ring_b_after,
            offered_b,
            tick,
            region,
            dirty,
        );
    }
}

/// One cycle is deterministic: from the same state, with executors that run
/// alike, two hosts give the same answer and are in the same state again.
pub proof fn law_cycle_is_deterministic<M: GuardedMemory, E: QuantumExecutor<M>>(
    a: Supervisor<M>,
    executor_a: E,
    a_after: Supervisor<M>,
    executor_a_after: E,
    answer_a: Answer,
    b: Supervisor<M>,
    executor_b: E,
    b_after: Supervisor<M>,
    executor_b_after: E,
    answer_b: Answer,
    recorders: spec_fn(RecorderView, RecorderView) -> bool,
    executors: spec_fn(E, E) -> bool,
)
    requires
        runs_alike::<M, E>(recorders, executors),
        a.wf(),
        same_supervisor(a, b, recorders),
        executors(executor_a, executor_b),
        is_cycle(a, executor_a, a_after, executor_a_after, answer_a),
        is_cycle(b, executor_b, b_after, executor_b_after, answer_b),
    ensures
        same_supervisor(a_after, b_after, recorders),
        executors(executor_a_after, executor_b_after),
        answer_a == answer_b,
{
    if a.order().len() > 0 {
        let id = a.order().first();
        let tick = a_after.tick();
        assert(a.order().contains(id));
        let (before_a, before_b) = (a.cells()[id], b.cells()[id]);
        assert(same_cell(before_a, before_b, recorders));
        let (drained_a, ran_a, outcome_a) = choose|
            drained: Cell<M>,
            ran: Cell<M>,
            outcome: Result<u64, QuantumFault>,
        |
            is_drained(before_a, drained) && #[trigger] E::ran(
                executor_a,
                drained,
                a.quantum(),
                executor_a_after,
                ran,
                outcome,
            ) && is_settled(
                executor_a_after,
                ran,
                outcome,
                before_a.due(tick),
                a_after.cells()[id],
                a.ring(),
                a_after.ring(),
                id,
                tick,
                answer_a,
            );
        let (drained_b, ran_b, outcome_b) = choose|
            drained: Cell<M>,
            ran: Cell<M>,
            outcome: Result<u64, QuantumFault>,
        |
            is_drained(before_b, drained) && #[trigger] E::ran(
                executor_b,
                drained,
                b.quantum(),
                executor_b_after,
                ran,
                outcome,
            ) && is_settled(
                executor_b_after,
                ran,
                outcome,
                before_b.due(tick),
                b_after.cells()[id],
                b.ring(),
                b_after.ring(),
                id,
                tick,
                answer_b,
            );
        assert(same_cell(drained_a, drained_b, recorders));
        lemma_settling_agrees(
            executor_a_after,
            ran_a,
            outcome_a,
            a_after.cells()[id],
            a.ring(),
            a_after.ring(),
            answer_a,
            executor_b_after,
            ran_b,
            outcome_b,
            b_after.cells()[id],
            b.ring(),
            b_after.ring(),
            answer_b,
            before_a.due(tick),
            id,
            tick,
            recorders,
            executors,
        );
        assert(a_after.cells().dom() =~= b_after.cells().dom());
        assert forall|other: CellId| #[trigger]
            a_after.cells().contains_key(other) implies same_cell(
            a_after.cells()[other],
            b_after.cells()[other],
            recorders,
        ) by {
            if other != id {
                assert(a.cells().contains_key(other));
            }
        }
    }
}

/// A whole run is deterministic: two hosts that start in the same state, with
/// executors that run alike, give the same answers in the same cycles, and are
/// in the same state after every one of them. Their memories, their trees,
/// their checkpoint chains and the batches in their rings are the same, bit
/// for bit.
pub proof fn law_run_is_deterministic<M: GuardedMemory, E: QuantumExecutor<M>>(
    states_a: Seq<Supervisor<M>>,
    executors_a: Seq<E>,
    answers_a: Seq<Answer>,
    states_b: Seq<Supervisor<M>>,
    executors_b: Seq<E>,
    answers_b: Seq<Answer>,
    recorders: spec_fn(RecorderView, RecorderView) -> bool,
    executors: spec_fn(E, E) -> bool,
    k: int,
)
    requires
        runs_alike::<M, E>(recorders, executors),
        is_run(states_a, executors_a, answers_a),
        is_run(states_b, executors_b, answers_b),
        same_supervisor(states_a[0], states_b[0], recorders),
        executors(executors_a[0], executors_b[0]),
        0 <= k <= answers_a.len(),
        k <= answers_b.len(),
    ensures
        same_supervisor(states_a[k], states_b[k], recorders),
        executors(executors_a[k], executors_b[k]),
        forall|i: int| 0 <= i < k ==> #[trigger] answers_a[i] == answers_b[i],
    decreases k,
{
    if k > 0 {
        let j = k - 1;
        law_run_is_deterministic(
            states_a,
            executors_a,
            answers_a,
            states_b,
            executors_b,
            answers_b,
            recorders,
            executors,
            j,
        );
        assert(states_a[j].wf() && states_b[j].wf());
        law_cycle_is_deterministic(
            states_a[j],
            executors_a[j],
            states_a[k],
            executors_a[k],
            answers_a[j],
            states_b[j],
            executors_b[j],
            states_b[k],
            executors_b[k],
            answers_b[j],
            recorders,
            executors,
        );
    }
}

} // verus!
