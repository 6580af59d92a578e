//! Deterministic scheduler: strict round-robin dispatch across cells, with
//! one tick of the shared clock per dispatched quantum. It never reorders
//! cells on I/O readiness, timers or any other live signal.

use std::collections::{HashMap, VecDeque};
use vstd::prelude::*;

use crate::cell::{Cell, CellId};
use crate::clock::LogicalClock;

verus! {

/// Which cell is dispatched for one quantum.
#[derive(Debug, Clone, Copy, PartialEq, Eq)]
pub struct DispatchOutcome {
    pub cell_id: CellId,
    pub tick: u64,
    pub checkpoint_due: bool,
}

/// The order after the first cell was dispatched: it goes to the back.
pub open spec fn rotated(order: Seq<CellId>) -> Seq<CellId> {
    order.drop_first().push(order.first())
}

/// The order after `n` dispatches.
pub open spec fn rotated_by(order: Seq<CellId>, n: nat) -> Seq<CellId>
    decreases n,
{
    if n == 0 {
        order
    } else {
        rotated(rotated_by(order, (n - 1) as nat))
    }
}

/// Strict round-robin scheduler. Cells are dispatched in the order in which
/// they were registered.
pub struct Scheduler {
    order: VecDeque<CellId>,
    clock: LogicalClock,
}

impl Scheduler {
    /// The cells in the order in which they are dispatched next.
    pub closed spec fn order(&self) -> Seq<CellId> {
        self.order@
    }

    /// The number of quanta dispatched so far.
    pub closed spec fn tick(&self) -> u64 {
        self.clock@
    }

    pub fn new(cell_ids: Vec<CellId>) -> (scheduler: Self)
        ensures
            scheduler.order() == cell_ids@,
            scheduler.tick() == 0,
    {
        let mut order: VecDeque<CellId> = VecDeque::new();
        let mut i: usize = 0;
        while i < cell_ids.len()
            invariant
                i <= cell_ids@.len(),
                order@ == cell_ids@.take(i as int),
            decreases cell_ids@.len() - i,
        {
            order.push_back(cell_ids[i]);
            assert(cell_ids@.take(i + 1) =~= cell_ids@.take(i as int).push(cell_ids@[i as int]));
            i += 1;
        }
        assert(cell_ids@.take(i as int) =~= cell_ids@);
        Scheduler { order, clock: LogicalClock::new() }
    }

    /// Adds a cell at the end of the rotation.
    pub fn register_cell(&mut self, cell_id: CellId)
        ensures
            final(self).order() == old(self).order().push(cell_id),
            final(self).tick() == old(self).tick(),
    {
        self.order.push_back(cell_id);
    }

    /// Removes a cell from the rotation. The others keep their order, and the
    /// ticks go on as before.
    pub fn deregister_cell(&mut self, cell_id: CellId)
        ensures
            final(self).order() == old(self).order().filter(|id: CellId| id != cell_id),
            final(self).tick() == old(self).tick(),
    {
        let ghost keeps = |id: CellId| id != cell_id;
        let mut kept: VecDeque<CellId> = VecDeque::new();
        let mut i: usize = 0;
        while i < self.order.len()
            invariant
                i <= self.order@.len(),
                self.order@ == old(self).order(),
                self.clock@ == old(self).tick(),
                keeps == (|id: CellId| id != cell_id),
                kept@ == self.order@.take(i as int).filter(keeps),
            decreases self.order@.len() - i,
        {
            let id: CellId = self.order[i];
            proof {
                reveal(Seq::filter);
                assert(self.order@.take(i + 1).drop_last() =~= self.order@.take(i as int));
            }
            if id != cell_id {
                kept.push_back(id);
            }
            i += 1;
        }
        assert(self.order@.take(i as int) =~= self.order@);
        self.order = kept;
    }

    pub fn current_tick(&self) -> (tick: u64)
        ensures
            tick == self.tick(),
    {
        self.clock.snapshot()
    }

    /// Advance to the next cell in rotation, in a new tick. `None` if there
    /// are no cells.
    pub fn next_dispatch<M>(&mut self, cells: &HashMap<CellId, Cell<M>>) -> (outcome: Option<
        DispatchOutcome,
    >)
        requires
            old(self).order().len() > 0 ==> old(self).tick() < u64::MAX,
        ensures
            old(self).order().len() == 0 ==> {
                &&& outcome is None
                &&& final(self).order() == old(self).order()
                &&& final(self).tick() == old(self).tick()
            },
            old(self).order().len() > 0 ==> {
                &&& outcome is Some
                &&& final(self).order() == rotated(old(self).order())
                &&& final(self).tick() == old(self).tick() + 1
                &&& outcome->Some_0.cell_id == old(self).order().first()
                &&& outcome->Some_0.tick == final(self).tick()
                &&& outcome->Some_0.checkpoint_due == (cells@.contains_key(
                    outcome->Some_0.cell_id,
                ) && cells@[outcome->Some_0.cell_id].due(outcome->Some_0.tick))
            },
    {
        broadcast use vstd::std_specs::hash::group_hash_axioms;

        let cell_id: CellId = match self.order.pop_front() {
            None => return None,
            Some(cell_id) => cell_id,
        };
        self.order.push_back(cell_id);
        assert(self.order@ =~= rotated(old(self).order()));
        let tick: u64 = self.clock.advance();
        let checkpoint_due: bool = match cells.get(&cell_id) {
            Some(cell) => cell.checkpoint_due(tick),
            None => false,
        };
        Some(DispatchOutcome { cell_id, tick, checkpoint_due })
    }
}

/// The order after `n` dispatches is the order shifted by `n` places.
proof fn lemma_rotated_by(order: Seq<CellId>, n: nat)
    requires
        order.len() > 0,
    ensures
        rotated_by(order, n).len() == order.len(),
        forall|i: int|
            0 <= i < order.len() ==> #[trigger] rotated_by(order, n)[i] == order[(i + n)
                % order.len() as int],
    decreases n,
{
    let len = order.len() as int;
    if n == 0 {
        assert forall|i: int| 0 <= i < len implies #[trigger] rotated_by(order, n)[i] == order[(i
            + n) % len] by {
            vstd::arithmetic::div_mod::lemma_small_mod(i as nat, len as nat);
        }
    } else {
        let m = (n - 1) as nat;
        let before = rotated_by(order, m);
        lemma_rotated_by(order, m);
        assert forall|i: int| 0 <= i < len implies #[trigger] rotated_by(order, n)[i] == order[(i
            + n) % len] by {
            if i < len - 1 {
                assert(rotated_by(order, n)[i] == before[i + 1]);
                assert(i + 1 + m == i + n);
            } else {
                assert(rotated_by(order, n)[i] == before[0]);
                assert((len + m) % len == m as int % len) by {
                    vstd::arithmetic::div_mod::lemma_mod_add_multiples_vanish(m as int, len);
                }
                assert(i + n == len + m);
            }
        }
    }
}

/// Round robin: dispatch number `k`, counted from 0, goes to cell `k` modulo
/// the number of cells, so that every cell is visited before one repeats, and
/// after a full round the order is as before.
pub proof fn law_round_robin(order: Seq<CellId>, k: nat)
    requires
        order.len() > 0,
    ensures
        rotated_by(order, k).first() == order[k as int % order.len() as int],
        rotated_by(order, order.len()) == order,
{
    lemma_rotated_by(order, k);
    assert(rotated_by(order, k)[0] == order[(0int + k) % order.len() as int]);
    lemma_rotated_by(order, order.len());
    let len = order.len() as int;
    assert forall|i: int| 0 <= i < len implies rotated_by(order, order.len())[i] == order[i] by {
        vstd::arithmetic::div_mod::lemma_mod_add_multiples_vanish(i, len);
        vstd::arithmetic::div_mod::lemma_small_mod(i as nat, len as nat);
    }
    assert(rotated_by(order, order.len()) =~= order);
}

/// No cell starves: a registered cell is dispatched in every round of as many
/// quanta as there are cells, always at its place.
pub proof fn law_no_cell_starves(order: Seq<CellId>, i: int, k: nat)
    requires
        0 <= i < order.len(),
    ensures
        rotated_by(order, (k * order.len() + i) as nat).first() == order[i],
{
    let len = order.len() as int;
    let n = (k * order.len() + i) as nat;
    law_round_robin(order, n);
    vstd::arithmetic::div_mod::lemma_mod_multiples_vanish(k as int, i, len);
    vstd::arithmetic::div_mod::lemma_small_mod(i as nat, len as nat);
    assert(k * len == len * k) by (nonlinear_arith);
}

/// A dispatch moves the first cell to the back and every other one up by one.
pub proof fn law_dispatch_moves_first_to_back(order: Seq<CellId>)
    requires
        order.len() > 0,
    ensures
        rotated(order).len() == order.len(),
        rotated(order)[order.len() - 1] == order[0],
        forall|i: int| 0 <= i < order.len() - 1 ==> #[trigger] rotated(order)[i] == order[i + 1],
{
}

} // verus!
