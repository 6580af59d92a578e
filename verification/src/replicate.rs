//! Live state-diff replication: the ring that carries each tick's page deltas
//! to the consumer, and the loop that applies them on the standby.

use crossbeam::queue::ArrayQueue;
use vstd::prelude::*;

use crate::delta::{
    apply_delta, commit_all, copy_of, copy_or_zero, law_patch_undoes_diff, page_fits,
    slots_reaching, DeltaEngine, PageDelta,
};
use crate::guarded_memory::PAGE_SIZE;

verus! {

/// One tick's worth of dirty-page deltas, the unit of transfer to the
/// standby.
#[derive(Debug, Clone)]
pub struct TickBatch {
    pub tick: u64,
    pub deltas: Vec<PageDelta>,
}

#[derive(Debug, Clone, Copy, PartialEq, Eq)]
pub enum RingError {
    /// The ring is full at this capacity: the standby is falling behind.
    Full(usize),
}

#[verifier::external_type_specification]
#[verifier::external_body]
#[verifier::reject_recursive_types(T)]
pub struct ExArrayQueue<T>(ArrayQueue<T>);

/// What a queue holds, from the batch that was pushed first.
pub uninterp spec fn queue_contents(queue: ArrayQueue<TickBatch>) -> Seq<TickBatch>;

/// How many batches a queue can hold.
pub uninterp spec fn queue_capacity(queue: ArrayQueue<TickBatch>) -> usize;

/// `ArrayQueue::new`: an empty queue for `capacity` batches. It panics on a
/// capacity of zero, and on one whose slots no allocation can hold; a slot, of
/// a batch and a stamp, is under 64 bytes.
#[verifier::external_body]
fn queue_new(capacity: usize) -> (queue: ArrayQueue<TickBatch>)
    requires
        0 < capacity,
        capacity * 64 <= isize::MAX,
    ensures
        queue_contents(queue) == Seq::<TickBatch>::empty(),
        queue_capacity(queue) == capacity,
{
    ArrayQueue::new(capacity)
}

/// `ArrayQueue::push`: appends the batch where there is room, and otherwise
/// gives it back and changes nothing. The queue is borrowed exclusively, so
/// nobody pushes or pops meanwhile.
#[verifier::external_body]
fn queue_push(queue: &mut ArrayQueue<TickBatch>, batch: TickBatch) -> (pushed: Result<
    (),
    TickBatch,
>)
    ensures
        queue_capacity(*final(queue)) == queue_capacity(*old(queue)),
        queue_contents(*old(queue)).len() < queue_capacity(*old(queue)) ==> pushed is Ok
            && queue_contents(*final(queue)) == queue_contents(*old(queue)).push(batch),
        queue_contents(*old(queue)).len() >= queue_capacity(*old(queue)) ==> pushed is Err
            && pushed->Err_0 == batch && queue_contents(*final(queue)) == queue_contents(
            *old(queue),
        ),
{
    queue.push(batch)
}

/// `ArrayQueue::pop`: takes out the batch that was pushed first, where there
/// is one. The queue is borrowed exclusively, so nobody pushes or pops
/// meanwhile.
#[verifier::external_body]
fn queue_pop(queue: &mut ArrayQueue<TickBatch>) -> (batch: Option<TickBatch>)
    ensures
        queue_capacity(*final(queue)) == queue_capacity(*old(queue)),
        queue_contents(*old(queue)).len() == 0 ==> batch is None && queue_contents(*final(queue))
            == queue_contents(*old(queue)),
        queue_contents(*old(queue)).len() > 0 ==> batch == Some(
            queue_contents(*old(queue)).first(),
        ) && queue_contents(*final(queue)) == queue_contents(*old(queue)).drop_first(),
{
    queue.pop()
}

/// `ArrayQueue::capacity`: the capacity that the queue was made with.
#[verifier::external_body]
fn queue_capacity_of(queue: &ArrayQueue<TickBatch>) -> (capacity: usize)
    ensures
        capacity == queue_capacity(*queue),
{
    queue.capacity()
}

/// The later of two ticks.
pub open spec fn later_tick(a: u64, b: u64) -> u64 {
    if b > a {
        b
    } else {
        a
    }
}

/// Bounded ring carrying `TickBatch`es from the primary's dispatch to the
/// network-streaming consumer.
///
/// On overflow it answers `RingError::Full` rather than blocking, so that the
/// supervisor can decide what to do instead of stalling tenants.
pub struct DeltaRing {
    queue: ArrayQueue<TickBatch>,
    /// Highest tick that was pushed.
    last_pushed_tick: u64,
}

impl DeltaRing {
    /// The batches in the ring, from the one that was pushed first.
    pub closed spec fn batches(&self) -> Seq<TickBatch> {
        queue_contents(self.queue)
    }

    /// How many batches the ring can hold.
    pub closed spec fn capacity(&self) -> usize {
        queue_capacity(self.queue)
    }

    /// The highest tick that was pushed, or 0.
    pub closed spec fn last_tick(&self) -> u64 {
        self.last_pushed_tick
    }

    pub fn new(capacity: usize) -> (ring: Self)
        requires
            0 < capacity,
            capacity * 64 <= isize::MAX,
        ensures
            ring.batches() == Seq::<TickBatch>::empty(),
            ring.capacity() == capacity,
            ring.last_tick() == 0,
    {
        DeltaRing { queue: queue_new(capacity), last_pushed_tick: 0 }
    }

    /// Producer side: push one tick's batch. Never blocks. A full ring refuses
    /// the batch and stays as it is.
    pub fn push(&mut self, batch: TickBatch) -> (pushed: Result<(), RingError>)
        ensures
            final(self).capacity() == old(self).capacity(),
            old(self).batches().len() < old(self).capacity() ==> {
                &&& pushed is Ok
                &&& final(self).batches() == old(self).batches().push(batch)
                &&& final(self).last_tick() == later_tick(old(self).last_tick(), batch.tick)
            },
            old(self).batches().len() >= old(self).capacity() ==> {
                &&& pushed == Err::<(), RingError>(RingError::Full(old(self).capacity()))
                &&& final(self).batches() == old(self).batches()
                &&& final(self).last_tick() == old(self).last_tick()
            },
    {
        let tick: u64 = batch.tick;
        match queue_push(&mut self.queue, batch) {
            Err(_) => Err(RingError::Full(queue_capacity_of(&self.queue))),
            Ok(()) => {
                if tick > self.last_pushed_tick {
                    self.last_pushed_tick = tick;
                }
                Ok(())
            },
        }
    }

    /// Consumer side: take out everything that is available, first in, first
    /// out.
    pub fn drain(&mut self) -> (drained: Vec<TickBatch>)
        ensures
            drained@ == old(self).batches(),
            final(self).batches() == Seq::<TickBatch>::empty(),
            final(self).capacity() == old(self).capacity(),
            final(self).last_tick() == old(self).last_tick(),
    {
        let mut drained: Vec<TickBatch> = Vec::new();
        loop
            invariant
                drained@ + self.batches() == old(self).batches(),
                self.capacity() == old(self).capacity(),
                self.last_tick() == old(self).last_tick(),
            decreases self.batches().len(),
        {
            match queue_pop(&mut self.queue) {
                Some(batch) => {
                    drained.push(batch);
                    assert(drained@ + self.batches() =~= old(self).batches());
                },
                None => {
                    assert(drained@ =~= old(self).batches());
                    assert(self.batches() =~= Seq::<TickBatch>::empty());
                    return drained;
                },
            }
        }
    }

    /// The highest tick that was pushed, or 0.
    pub fn last_pushed_tick(&self) -> (tick: u64)
        ensures
            tick == self.last_tick(),
    {
        self.last_pushed_tick
    }

    /// A handle for the producer side. What is pushed through it is pushed to
    /// this ring.
    pub fn producer_handle(&mut self) -> (producer: DeltaRingProducer<'_>)
        ensures
            *producer.ring == *old(self),
            *final(self) == *final(producer.ring),
    {
        DeltaRingProducer { ring: self }
    }
}

/// A handle for the producer side of a ring.
pub struct DeltaRingProducer<'a> {
    pub ring: &'a mut DeltaRing,
}

impl<'a> DeltaRingProducer<'a> {
    /// Push one tick's batch, as `DeltaRing::push` does.
    pub fn push(&mut self, batch: TickBatch) -> (pushed: Result<(), RingError>)
        ensures
            final(self).ring.capacity() == old(self).ring.capacity(),
            old(self).ring.batches().len() < old(self).ring.capacity() ==> {
                &&& pushed is Ok
                &&& final(self).ring.batches() == old(self).ring.batches().push(batch)
                &&& final(self).ring.last_tick() == later_tick(
                    old(self).ring.last_tick(),
                    batch.tick,
                )
            },
            old(self).ring.batches().len() >= old(self).ring.capacity() ==> {
                &&& pushed == Err::<(), RingError>(RingError::Full(old(self).ring.capacity()))
                &&& final(self).ring.batches() == old(self).ring.batches()
                &&& final(self).ring.last_tick() == old(self).ring.last_tick()
            },
            *final(final(self).ring) == *final(old(self).ring),
    {
        self.ring.push(batch)
    }
}

#[derive(Debug, Clone, Copy, PartialEq, Eq)]
pub enum ApplyError {
    /// A tick was received out of order.
    OutOfOrder { expected_after: u64, got: u64 },
}

/// The copies after `deltas` have been applied one after the other.
pub open spec fn apply_all(copies: Map<u64, Seq<u8>>, deltas: Seq<PageDelta>) -> Map<u64, Seq<u8>>
    decreases deltas.len(),
{
    if deltas.len() == 0 {
        copies
    } else {
        apply_delta(apply_all(copies, deltas.drop_last()), deltas.last())
    }
}

/// A batch for `tick` may follow when `last` was applied last, or nothing was
/// applied yet.
pub open spec fn in_order(last: Option<u64>, tick: u64) -> bool {
    last is None || tick > last->Some_0
}

/// How many pages a standby's table has slots for, once `deltas` have been
/// applied.
pub open spec fn slots_after(slots: nat, deltas: Seq<PageDelta>) -> nat
    decreases deltas.len(),
{
    if deltas.len() == 0 {
        slots
    } else {
        slots_reaching(slots_after(slots, deltas.drop_last()), deltas.last().page())
    }
}

/// Standby-side apply loop: takes batches in strict tick order and applies
/// each page delta.
pub struct StandbyApplyLoop {
    engine: DeltaEngine,
    /// Tick of the last batch that was applied, once one was.
    last_applied_tick: Option<u64>,
}

impl StandbyApplyLoop {
    /// The standby's copy of each page that it received.
    pub closed spec fn copies(&self) -> Map<u64, Seq<u8>> {
        self.engine@
    }

    /// The tick of the last batch that was applied, once one was.
    pub closed spec fn last_tick(&self) -> Option<u64> {
        self.last_applied_tick
    }

    /// The pages that the standby's table has a slot for: those below this
    /// number.
    pub closed spec fn slots(&self) -> nat {
        self.engine.slots()
    }

    pub fn new(initial_capacity_pages: usize) -> (standby: Self)
        requires
            initial_capacity_pages * (PAGE_SIZE + 1) <= isize::MAX,
        ensures
            standby.copies() == Map::<u64, Seq<u8>>::empty(),
            standby.last_tick() is None,
            standby.slots() == initial_capacity_pages,
    {
        StandbyApplyLoop {
            engine: DeltaEngine::new(initial_capacity_pages),
            last_applied_tick: None,
        }
    }

    /// Apply a batch. One that is out of order is refused and changes
    /// nothing: applying it would break bit-identical replay.
    pub fn apply_batch(&mut self, batch: &TickBatch) -> (applied: Result<(), ApplyError>)
        requires
            in_order(old(self).last_tick(), batch.tick) ==> forall|i: int|
                0 <= i < batch.deltas@.len() ==> page_fits((#[trigger] batch.deltas@[i]).page()),
        ensures
            in_order(old(self).last_tick(), batch.tick) ==> {
                &&& applied is Ok
                &&& final(self).copies() == apply_all(old(self).copies(), batch.deltas@)
                &&& final(self).last_tick() == Some(batch.tick)
                &&& final(self).slots() == slots_after(old(self).slots(), batch.deltas@)
            },
            !in_order(old(self).last_tick(), batch.tick) ==> {
                &&& applied == Err::<(), ApplyError>(
                    ApplyError::OutOfOrder {
                        expected_after: old(self).last_tick()->Some_0,
                        got: batch.tick,
                    },
                )
                &&& final(self).copies() == old(self).copies()
                &&& final(self).last_tick() == old(self).last_tick()
                &&& final(self).slots() == old(self).slots()
            },
    {
        if let Some(last) = self.last_applied_tick {
            if batch.tick <= last {
                return Err(ApplyError::OutOfOrder { expected_after: last, got: batch.tick });
            }
        }
        let mut i: usize = 0;
        while i < batch.deltas.len()
            invariant
                i <= batch.deltas@.len(),
                forall|j: int|
                    0 <= j < batch.deltas@.len() ==> page_fits(
                        (#[trigger] batch.deltas@[j]).page(),
                    ),
                self.engine@ == apply_all(old(self).copies(), batch.deltas@.take(i as int)),
                self.engine.slots() == slots_after(
                    old(self).slots(),
                    batch.deltas@.take(i as int),
                ),
            decreases batch.deltas@.len() - i,
        {
            self.engine.apply(&batch.deltas[i]);
            assert(batch.deltas@.take(i + 1).drop_last() =~= batch.deltas@.take(i as int));
            i += 1;
        }
        assert(batch.deltas@.take(i as int) =~= batch.deltas@);
        self.last_applied_tick = Some(batch.tick);
        Ok(())
    }

    /// The tick of the last batch that was applied, or 0.
    pub fn last_applied_tick(&self) -> (tick: u64)
        ensures
            tick == (match self.last_tick() {
                Some(last) => last,
                None => 0,
            }),
    {
        match self.last_applied_tick {
            Some(last) => last,
            None => 0,
        }
    }
}

/// `deltas` are what an engine that starts from `copies` gives for `pages`,
/// diffed and committed one after the other.
pub open spec fn is_diff_stream(
    copies: Map<u64, Seq<u8>>,
    pages: Seq<(u64, Seq<u8>)>,
    deltas: Seq<PageDelta>,
) -> bool {
    &&& deltas.len() == pages.len()
    &&& forall|i: int|
        0 <= i < pages.len() ==> (#[trigger] deltas[i]).is_diff(
            copy_of(commit_all(copies, pages.take(i)), pages[i].0),
            pages[i].0,
            pages[i].1,
        )
}

/// The deltas of a list of batches, in order.
pub open spec fn deltas_of(batches: Seq<TickBatch>) -> Seq<PageDelta>
    decreases batches.len(),
{
    if batches.len() == 0 {
        Seq::empty()
    } else {
        deltas_of(batches.drop_last()) + batches.last().deltas@
    }
}

/// The copies and the last tick of a standby after it was handed `batches`.
pub open spec fn standby_after(
    copies: Map<u64, Seq<u8>>,
    last: Option<u64>,
    batches: Seq<TickBatch>,
) -> (Map<u64, Seq<u8>>, Option<u64>)
    decreases batches.len(),
{
    if batches.len() == 0 {
        (copies, last)
    } else {
        let before = standby_after(copies, last, batches.drop_last());
        let batch = batches.last();
        if in_order(before.1, batch.tick) {
            (apply_all(before.0, batch.deltas@), Some(batch.tick))
        } else {
            before
        }
    }
}

proof fn lemma_apply_all_concat(
    copies: Map<u64, Seq<u8>>,
    first: Seq<PageDelta>,
    second: Seq<PageDelta>,
)
    ensures
        apply_all(copies, first + second) == apply_all(apply_all(copies, first), second),
    decreases second.len(),
{
    if second.len() == 0 {
        assert(first + second =~= first);
    } else {
        assert((first + second).drop_last() =~= first + second.drop_last());
        lemma_apply_all_concat(copies, first, second.drop_last());
    }
}

/// A standby that starts from the primary's copies and applies what the
/// primary diffed, in order, has the primary's copies, whichever encodings
/// the deltas have.
pub proof fn law_standby_ends_as_primary(
    copies: Map<u64, Seq<u8>>,
    pages: Seq<(u64, Seq<u8>)>,
    deltas: Seq<PageDelta>,
)
    requires
        is_diff_stream(copies, pages, deltas),
        forall|i: int| 0 <= i < pages.len() ==> (#[trigger] pages[i]).1.len() == PAGE_SIZE,
    ensures
        apply_all(copies, deltas) == commit_all(copies, pages),
    decreases pages.len(),
{
    if pages.len() > 0 {
        let n = pages.len() - 1;
        let (rest, sent) = (pages.drop_last(), deltas.drop_last());
        assert forall|i: int| 0 <= i < rest.len() implies (#[trigger] sent[i]).is_diff(
            copy_of(commit_all(copies, rest.take(i)), rest[i].0),
            rest[i].0,
            rest[i].1,
        ) by {
            assert(deltas[i] == sent[i]);
            assert(rest.take(i) =~= pages.take(i));
        }
        assert forall|i: int| 0 <= i < rest.len() implies (#[trigger] rest[i]).1.len()
            == PAGE_SIZE by {
            assert(pages[i] == rest[i]);
        }
        law_standby_ends_as_primary(copies, rest, sent);
        assert(deltas[n] == deltas.last());
        assert(pages.take(n) =~= rest);
        law_patch_undoes_diff(
            commit_all(copies, rest),
            pages[n].0,
            pages[n].1,
            deltas[n],
        );
    }
}

/// Bit for bit: each delta of such a stream is for the page that was diffed,
/// and the standby, which has applied every delta before it, gets from it the
/// content that was diffed.
pub proof fn law_standby_reproduces_every_page(
    copies: Map<u64, Seq<u8>>,
    pages: Seq<(u64, Seq<u8>)>,
    deltas: Seq<PageDelta>,
    i: int,
)
    requires
        is_diff_stream(copies, pages, deltas),
        forall|k: int| 0 <= k < pages.len() ==> (#[trigger] pages[k]).1.len() == PAGE_SIZE,
        0 <= i < pages.len(),
    ensures
        deltas[i].page() == pages[i].0,
        deltas[i].patched(copy_or_zero(apply_all(copies, deltas.take(i)), pages[i].0))
            == pages[i].1,
{
    let (rest, sent) = (pages.take(i), deltas.take(i));
    assert forall|k: int| 0 <= k < rest.len() implies (#[trigger] sent[k]).is_diff(
        copy_of(commit_all(copies, rest.take(k)), rest[k].0),
        rest[k].0,
        rest[k].1,
    ) by {
        assert(deltas[k] == sent[k]);
        assert(rest.take(k) =~= pages.take(k));
    }
    assert forall|k: int| 0 <= k < rest.len() implies (#[trigger] rest[k]).1.len()
        == PAGE_SIZE by {
        assert(pages[k] == rest[k]);
    }
    law_standby_ends_as_primary(copies, rest, sent);
    assert(deltas[i].page() == pages[i].0);
    law_patch_undoes_diff(commit_all(copies, rest), pages[i].0, pages[i].1, deltas[i]);
}

/// However a stream of deltas is cut into batches, a standby that is handed
/// the batches with ticks going up applies the whole stream in order.
pub proof fn law_batching_is_transparent(
    copies: Map<u64, Seq<u8>>,
    last: Option<u64>,
    batches: Seq<TickBatch>,
)
    requires
        batches.len() > 0 ==> in_order(last, batches[0].tick),
        forall|i: int, j: int|
            0 <= i < j < batches.len() ==> (#[trigger] batches[i]).tick < (
            #[trigger] batches[j]).tick,
    ensures
        standby_after(copies, last, batches) == (
            apply_all(copies, deltas_of(batches)),
            if batches.len() == 0 {
                last
            } else {
                Some(batches.last().tick)
            },
        ),
    decreases batches.len(),
{
    if batches.len() > 0 {
        let rest = batches.drop_last();
        assert forall|i: int, j: int| 0 <= i < j < rest.len() implies (#[trigger] rest[i]).tick < (
        #[trigger] rest[j]).tick by {
            assert(rest[i] == batches[i] && rest[j] == batches[j]);
        }
        law_batching_is_transparent(copies, last, rest);
        lemma_apply_all_concat(copies, deltas_of(rest), batches.last().deltas@);
        assert(batches.last() == batches[batches.len() - 1]);
        if rest.len() > 0 {
            assert(rest.last() == batches[rest.len() - 1]);
        }
    }
}

/// Once a batch was applied, no batch of its tick or of one before it is
/// applied any more.
pub proof fn law_applied_ticks_are_final(
    copies: Map<u64, Seq<u8>>,
    last: u64,
    batch: TickBatch,
)
    requires
        batch.tick <= last,
    ensures
        standby_after(copies, Some(last), seq![batch]) == (copies, Some(last)),
{
    let batches = seq![batch];
    assert(batches.drop_last() =~= Seq::<TickBatch>::empty());
    assert(standby_after(copies, Some(last), batches.drop_last()) == (copies, Some(last)));
}

/// The highest tick among `batches`, where there is one.
pub open spec fn highest_tick(batches: Seq<TickBatch>) -> Option<u64>
    decreases batches.len(),
{
    if batches.len() == 0 {
        None
    } else {
        match highest_tick(batches.drop_last()) {
            None => Some(batches.last().tick),
            Some(highest) => Some(later_tick(highest, batches.last().tick)),
        }
    }
}

proof fn lemma_highest_tick(batches: Seq<TickBatch>)
    ensures
        highest_tick(batches) is None <==> batches.len() == 0,
        forall|j: int|
            0 <= j < batches.len() ==> (#[trigger] batches[j]).tick <= highest_tick(
                batches,
            )->Some_0,
        batches.len() > 0 ==> exists|j: int|
            0 <= j < batches.len() && (#[trigger] batches[j]).tick == highest_tick(
                batches,
            )->Some_0,
    decreases batches.len(),
{
    if batches.len() > 0 {
        let rest = batches.drop_last();
        let n = batches.len() - 1;
        lemma_highest_tick(rest);
        assert(batches[n] == batches.last());
        assert forall|j: int| 0 <= j < batches.len() implies (#[trigger] batches[j]).tick
            <= highest_tick(batches)->Some_0 by {
            if j < n {
                assert(rest[j] == batches[j]);
            }
        }
        if highest_tick(batches) != Some(batches.last().tick) {
            let j = choose|j: int|
                0 <= j < rest.len() && (#[trigger] rest[j]).tick == highest_tick(rest)->Some_0;
            assert(batches[j] == rest[j]);
        }
    }
}

/// Whatever batches a new standby is handed, in any order and with repeats:
/// its last tick is the highest of them; batch `k` is applied exactly if its
/// tick is higher than all before it, and is otherwise refused with the
/// highest tick so far and changes nothing.
pub proof fn law_standby_takes_record_ticks(
    copies: Map<u64, Seq<u8>>,
    batches: Seq<TickBatch>,
    k: int,
)
    requires
        0 <= k < batches.len(),
    ensures
        standby_after(copies, None, batches).1 == highest_tick(batches),
        forall|j: int|
            0 <= j < batches.len() ==> (#[trigger] batches[j]).tick <= highest_tick(
                batches,
            )->Some_0,
        exists|j: int|
            0 <= j < batches.len() && (#[trigger] batches[j]).tick == highest_tick(
                batches,
            )->Some_0,
        ({
            let before = standby_after(copies, None, batches.take(k));
            let after = standby_after(copies, None, batches.take(k + 1));
            &&& before.1 == highest_tick(batches.take(k))
            &&& in_order(before.1, batches[k].tick) <==> forall|j: int|
                0 <= j < k ==> (#[trigger] batches[j]).tick < batches[k].tick
            &&& in_order(before.1, batches[k].tick) ==> after == (
                apply_all(before.0, batches[k].deltas@),
                Some(batches[k].tick),
            )
            &&& !in_order(before.1, batches[k].tick) ==> after == before
        }),
{
    let earlier = batches.take(k);
    lemma_last_tick_is_highest(copies, batches);
    lemma_last_tick_is_highest(copies, earlier);
    lemma_highest_tick(batches);
    lemma_highest_tick(earlier);
    assert(batches.take(k + 1).drop_last() =~= earlier);
    assert(batches.take(k + 1).last() == batches[k]);
    assert forall|j: int| 0 <= j < k implies (#[trigger] batches[j]).tick <= highest_tick(
        earlier,
    )->Some_0 by {
        assert(earlier[j] == batches[j]);
    }
    if k > 0 {
        let j = choose|j: int|
            0 <= j < earlier.len() && (#[trigger] earlier[j]).tick == highest_tick(
                earlier,
            )->Some_0;
        assert(batches[j].tick == highest_tick(earlier)->Some_0);
    }
}

proof fn lemma_last_tick_is_highest(copies: Map<u64, Seq<u8>>, batches: Seq<TickBatch>)
    ensures
        standby_after(copies, None, batches).1 == highest_tick(batches),
    decreases batches.len(),
{
    if batches.len() > 0 {
        lemma_last_tick_is_highest(copies, batches.drop_last());
    }
}

/// The ticks that a standby applies go strictly up.
pub proof fn law_applied_ticks_go_up(
    copies: Map<u64, Seq<u8>>,
    batches: Seq<TickBatch>,
    i: int,
    j: int,
)
    requires
        0 <= i < j < batches.len(),
        in_order(standby_after(copies, None, batches.take(j)).1, batches[j].tick),
    ensures
        batches[i].tick < batches[j].tick,
{
    law_standby_takes_record_ticks(copies, batches, j);
}

/// What a ring that holds `batches` holds after `more` was pushed, one batch
/// after the other.
pub open spec fn pushed_all(batches: Seq<TickBatch>, capacity: usize, more: Seq<TickBatch>) -> Seq<
    TickBatch,
>
    decreases more.len(),
{
    if more.len() == 0 {
        batches
    } else {
        let before = pushed_all(batches, capacity, more.drop_last());
        if before.len() < capacity {
            before.push(more.last())
        } else {
            before
        }
    }
}

/// A ring keeps what it was given first, in order, up to its capacity, and
/// refuses the rest.
pub proof fn law_ring_is_first_in_first_out(
    batches: Seq<TickBatch>,
    capacity: usize,
    more: Seq<TickBatch>,
)
    requires
        batches.len() <= capacity,
    ensures
        ({
            let room = capacity - batches.len();
            pushed_all(batches, capacity, more) == batches + more.take(
                if more.len() < room {
                    more.len() as int
                } else {
                    room
                },
            )
        }),
    decreases more.len(),
{
    let room = capacity - batches.len();
    if more.len() == 0 {
        assert(batches + more.take(0) =~= batches);
    } else {
        law_ring_is_first_in_first_out(batches, capacity, more.drop_last());
        if more.len() <= room {
            assert(batches + more =~= (batches + more.drop_last()).push(more.last()));
            assert(more.take(more.len() as int) =~= more);
            assert(more.drop_last().take(more.len() - 1) =~= more.drop_last());
        } else {
            assert(more.drop_last().take(room) =~= more.take(room));
        }
    }
}

/// A batch is in order if it is the first, or of a later tick than the last;
/// of two ticks the later one is the larger.
pub proof fn law_order_is_strict(last: u64, tick: u64)
    ensures
        in_order(None, tick),
        in_order(Some(last), tick) <==> last < tick,
        later_tick(last, tick) >= last,
        later_tick(last, tick) >= tick,
        later_tick(last, tick) == last || later_tick(last, tick) == tick,
{
}

/// Deltas are applied one after the other, each against what those before it
/// left, and the table grows with each.
pub proof fn law_deltas_apply_in_turn(
    copies: Map<u64, Seq<u8>>,
    slots: nat,
    deltas: Seq<PageDelta>,
    delta: PageDelta,
)
    ensures
        apply_all(copies, Seq::empty()) == copies,
        apply_all(copies, deltas.push(delta)) == apply_delta(apply_all(copies, deltas), delta),
        slots_after(slots, Seq::empty()) == slots,
        slots_after(slots, deltas.push(delta)) == slots_reaching(
            slots_after(slots, deltas),
            delta.page(),
        ),
{
    assert(deltas.push(delta).drop_last() =~= deltas);
}

} // verus!
