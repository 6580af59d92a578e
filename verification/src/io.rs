//! Asynchronous I/O on behalf of cells: per-cell file descriptors, and
//! completions that wait for the next quantum boundary.
//!
//! Completions are not delivered to the tenant at once. They are queued per
//! cell and handed over, in arrival order, when the cell is next dispatched.

use std::collections::{HashMap, VecDeque};
use vstd::prelude::*;

use crate::cell::CellId;

verus! {

/// Cell-local file descriptor, as seen by guest host-calls. Never a raw OS
/// descriptor: always resolved through `FdTable`.
pub type GuestFd = u32;

#[derive(Debug, Clone)]
pub enum IoError {
    /// The guest fd is not registered for this cell.
    UnknownFd(GuestFd),
    /// The submission queue is full.
    SubmissionQueueFull,
    /// The ring could not be set up or entered.
    SetupFailed(String),
    /// A buffer could not be registered.
    BufferRegistrationFailed(String),
}

/// A single completed I/O operation, queued for delivery to its owning cell
/// at the next quantum boundary.
#[derive(Debug, Clone, Copy, PartialEq, Eq)]
pub struct IoCompletion {
    pub cell: CellId,
    pub guest_fd: GuestFd,
    pub request_id: u64,
    /// Bytes transferred, or negative `-errno` on failure.
    pub result: i32,
}

/// Per-cell mapping from guest-visible fd numbers to host fds. Separate per
/// cell, so that no tenant can address another tenant's fd by guessing a
/// number.
pub struct FdTable {
    entries: HashMap<GuestFd, i32>,
    next_guest_fd: GuestFd,
}

impl View for FdTable {
    type V = Map<GuestFd, i32>;

    closed spec fn view(&self) -> Map<GuestFd, i32> {
        self.entries@
    }
}

impl FdTable {
    /// Every fd in the table was handed out before.
    #[verifier::type_invariant]
    spec fn inv(self) -> bool {
        forall|fd: GuestFd| #[trigger] self.entries@.contains_key(fd) ==> fd < self.next_guest_fd
    }

    /// The fd that is handed out next.
    pub closed spec fn next_fd(&self) -> GuestFd {
        self.next_guest_fd
    }

    /// An empty table. The fds 0, 1 and 2 are kept for the guest's standard
    /// streams.
    pub fn new() -> (table: Self)
        ensures
            table@ == Map::<GuestFd, i32>::empty(),
            table.next_fd() == 3,
    {
        FdTable { entries: HashMap::new(), next_guest_fd: 3 }
    }

    /// Hands out a guest fd for `host_fd`. The fd was never handed out by
    /// this table before, not even if it has been closed since.
    pub fn register(&mut self, host_fd: i32) -> (guest_fd: GuestFd)
        requires
            old(self).next_fd() < u32::MAX,
        ensures
            guest_fd == old(self).next_fd(),
            final(self).next_fd() == old(self).next_fd() + 1,
            !old(self)@.contains_key(guest_fd),
            final(self)@ == old(self)@.insert(guest_fd, host_fd),
    {
        broadcast use vstd::std_specs::hash::group_hash_axioms;

        proof {
            use_type_invariant(&*self);
        }
        let guest_fd: GuestFd = self.next_guest_fd;
        let mut entries: HashMap<GuestFd, i32> = HashMap::new();
        std::mem::swap(&mut self.entries, &mut entries);
        entries.insert(guest_fd, host_fd);
        self.next_guest_fd = guest_fd + 1;
        self.entries = entries;
        guest_fd
    }

    pub fn resolve(&self, guest_fd: GuestFd) -> (host_fd: Result<i32, IoError>)
        ensures
            self@.contains_key(guest_fd) ==> host_fd == Ok::<i32, IoError>(self@[guest_fd]),
            !self@.contains_key(guest_fd) ==> host_fd == Err::<i32, IoError>(
                IoError::UnknownFd(guest_fd),
            ),
    {
        broadcast use vstd::std_specs::hash::group_hash_axioms;

        match self.entries.get(&guest_fd) {
            Some(host_fd) => Ok(*host_fd),
            None => Err(IoError::UnknownFd(guest_fd)),
        }
    }

    /// Removes `guest_fd`, and gives back the host fd behind it.
    pub fn close(&mut self, guest_fd: GuestFd) -> (host_fd: Option<i32>)
        ensures
            final(self).next_fd() == old(self).next_fd(),
            final(self)@ == old(self)@.remove(guest_fd),
            old(self)@.contains_key(guest_fd) ==> guest_fd < old(self).next_fd(),
            host_fd == (if old(self)@.contains_key(guest_fd) {
                Some(old(self)@[guest_fd])
            } else {
                None
            }),
    {
        broadcast use vstd::std_specs::hash::group_hash_axioms;

        proof {
            use_type_invariant(&*self);
        }
        let mut entries: HashMap<GuestFd, i32> = HashMap::new();
        std::mem::swap(&mut self.entries, &mut entries);
        let host_fd = entries.remove(&guest_fd);
        self.entries = entries;
        host_fd
    }
}

impl Default for FdTable {
    /// An empty table that starts at fd 0 and keeps none for the guest's
    /// standard streams.
    fn default() -> (table: Self)
        ensures
            table@ == Map::<GuestFd, i32>::empty(),
            table.next_fd() == 0,
    {
        FdTable { entries: HashMap::new(), next_guest_fd: 0 }
    }
}

/// Per-cell queue of completions that have arrived but not yet been handed to
/// the tenant.
pub struct PendingCompletions {
    queue: VecDeque<IoCompletion>,
}

impl View for PendingCompletions {
    type V = Seq<IoCompletion>;

    closed spec fn view(&self) -> Seq<IoCompletion> {
        self.queue@
    }
}

impl PendingCompletions {
    pub fn new() -> (pending: Self)
        ensures
            pending@ == Seq::<IoCompletion>::empty(),
    {
        PendingCompletions { queue: VecDeque::new() }
    }

    pub fn push(&mut self, completion: IoCompletion)
        ensures
            final(self)@ == old(self)@.push(completion),
    {
        self.queue.push_back(completion);
    }

    /// Called once per quantum boundary: hands over everything accumulated
    /// since the cell was last dispatched, in arrival order.
    pub fn drain_for_dispatch(&mut self) -> (completions: Vec<IoCompletion>)
        ensures
            completions@ == old(self)@,
            final(self)@ == Seq::<IoCompletion>::empty(),
    {
        let mut completions: Vec<IoCompletion> = Vec::new();
        while self.queue.len() > 0
            invariant
                completions@ + self.queue@ == old(self)@,
            decreases self.queue@.len(),
        {
            if let Some(completion) = self.queue.pop_front() {
                completions.push(completion);
                assert(completions@ + self.queue@ =~= old(self)@);
            }
        }
        assert(completions@ =~= old(self)@);
        completions
    }

    pub fn is_empty(&self) -> (empty: bool)
        ensures
            empty == (self@.len() == 0),
    {
        self.queue.len() == 0
    }
}

impl Default for PendingCompletions {
    fn default() -> (pending: Self)
        ensures
            pending@ == Seq::<IoCompletion>::empty(),
    {
        Self::new()
    }
}

/// What the supervisor programs against: a ring of the kernel, or an
/// in-memory stand-in.
pub trait IoSubsystem {
    /// Register a fixed, pre-pinned buffer for zero-copy transfers. Must be
    /// called before any read or write that refers to `buffer_index`.
    fn register_fixed_buffer(&mut self, buffer_index: u16, buf: &mut [u8]) -> (registered: Result<
        (),
        IoError,
    >)
    ;

    /// Submit a zero-copy read into a registered buffer. Does not block: the
    /// completion arrives later through `poll_completions`.
    fn submit_read_fixed(
        &mut self,
        cell: CellId,
        guest_fd: GuestFd,
        host_fd: i32,
        buffer_index: u16,
        offset: u64,
        len: u32,
        request_id: u64,
    ) -> (submitted: Result<(), IoError>)
    ;

    /// Submit a zero-copy write from a registered buffer, likewise.
    fn submit_write_fixed(
        &mut self,
        cell: CellId,
        guest_fd: GuestFd,
        host_fd: i32,
        buffer_index: u16,
        offset: u64,
        len: u32,
        request_id: u64,
    ) -> (submitted: Result<(), IoError>)
    ;

    /// Drain the completions that are available, without blocking.
    fn poll_completions(&mut self) -> (completions: Vec<IoCompletion>)
    ;
}

/// The 32 bits of `len`, read as a signed number.
pub open spec fn as_signed(len: u32) -> i32 {
    if len <= i32::MAX {
        len as i32
    } else {
        (len - 0x1_0000_0000) as i32
    }
}

/// The completion of a request that transferred everything it asked for.
pub open spec fn full_transfer(
    cell: CellId,
    guest_fd: GuestFd,
    request_id: u64,
    len: u32,
) -> IoCompletion {
    IoCompletion { cell, guest_fd, request_id, result: as_signed(len) }
}

/// Minimal in-process stand-in, for tests and for builds without a ring.
/// Every request completes at once, with everything transferred.
pub struct StubIoSubsystem {
    completions: Vec<IoCompletion>,
}

impl View for StubIoSubsystem {
    type V = Seq<IoCompletion>;

    closed spec fn view(&self) -> Seq<IoCompletion> {
        self.completions@
    }
}

impl StubIoSubsystem {
    pub fn new() -> (io: Self)
        ensures
            io@ == Seq::<IoCompletion>::empty(),
    {
        StubIoSubsystem { completions: Vec::new() }
    }

    /// Queues the completion of a request for `len` bytes.
    fn complete(&mut self, cell: CellId, guest_fd: GuestFd, len: u32, request_id: u64)
        ensures
            final(self)@ == old(self)@.push(full_transfer(cell, guest_fd, request_id, len)),
    {
        let result: i32 = if len <= 0x7FFF_FFFF {
            len as i32
        } else {
            (len as i64 - 0x1_0000_0000) as i32
        };
        self.completions.push(IoCompletion { cell, guest_fd, request_id, result });
    }
}

impl Default for StubIoSubsystem {
    fn default() -> (io: Self)
        ensures
            io@ == Seq::<IoCompletion>::empty(),
    {
        Self::new()
    }
}

impl IoSubsystem for StubIoSubsystem {
    fn register_fixed_buffer(&mut self, buffer_index: u16, buf: &mut [u8]) -> (registered: Result<
        (),
        IoError,
    >)
        ensures
            registered is Ok,
            final(self)@ == old(self)@,
            final(buf)@ == old(buf)@,
    {
        Ok(())
    }

    fn submit_read_fixed(
        &mut self,
        cell: CellId,
        guest_fd: GuestFd,
        host_fd: i32,
        buffer_index: u16,
        offset: u64,
        len: u32,
        request_id: u64,
    ) -> (submitted: Result<(), IoError>)
        ensures
            submitted is Ok,
            final(self)@ == old(self)@.push(full_transfer(cell, guest_fd, request_id, len)),
    {
        self.complete(cell, guest_fd, len, request_id);
        Ok(())
    }

    fn submit_write_fixed(
        &mut self,
        cell: CellId,
        guest_fd: GuestFd,
        host_fd: i32,
        buffer_index: u16,
        offset: u64,
        len: u32,
        request_id: u64,
    ) -> (submitted: Result<(), IoError>)
        ensures
            submitted is Ok,
            final(self)@ == old(self)@.push(full_transfer(cell, guest_fd, request_id, len)),
    {
        self.complete(cell, guest_fd, len, request_id);
        Ok(())
    }

    fn poll_completions(&mut self) -> (completions: Vec<IoCompletion>)
        ensures
            completions@ == old(self)@,
            final(self)@ == Seq::<IoCompletion>::empty(),
    {
        let mut completions: Vec<IoCompletion> = Vec::new();
        std::mem::swap(&mut self.completions, &mut completions);
        completions
    }
}

/// What a request is tagged with: `[ cell: 24 bits | guest_fd: 20 bits |
/// request_id: 20 bits ]`.
pub open spec fn user_data_of(cell: CellId, guest_fd: GuestFd, request_id: u64) -> int {
    cell * 0x100_0000_0000 + guest_fd * 0x10_0000 + request_id
}

/// Packs the owner of a request into the tag that survives the round trip
/// through the kernel, so that a completion can be told apart without a side
/// table.
pub fn pack_user_data(cell: CellId, guest_fd: GuestFd, request_id: u64) -> (bits: u64)
    requires
        cell < 0x100_0000,
        guest_fd < 0x10_0000,
        request_id < 0x10_0000,
    ensures
        bits == user_data_of(cell, guest_fd, request_id),
{
    let fd: u64 = guest_fd as u64;
    assert(((cell << 40) | (fd << 20) | (request_id & 0xF_FFFF)) == cell * 0x100_0000_0000 + fd
        * 0x10_0000 + request_id) by (bit_vector)
        requires
            cell < 0x100_0000,
            fd < 0x10_0000,
            request_id < 0x10_0000,
    ;
    (cell << 40) | (fd << 20) | (request_id & 0xF_FFFF)
}

/// Takes a tag apart into cell, guest fd and request.
pub fn unpack_user_data(bits: u64) -> (owner: (CellId, GuestFd, u64))
    ensures
        owner.0 < 0x100_0000,
        owner.1 < 0x10_0000,
        owner.2 < 0x10_0000,
        bits == user_data_of(owner.0, owner.1, owner.2),
{
    let cell: u64 = bits >> 40;
    let fd: u64 = (bits >> 20) & 0xFFFFF;
    let request_id: u64 = bits & 0xFFFFF;
    assert(cell < 0x100_0000 && fd < 0x10_0000 && request_id < 0x10_0000 && bits == cell
        * 0x100_0000_0000 + fd * 0x10_0000 + request_id) by (bit_vector)
        requires
            cell == bits >> 40,
            fd == (bits >> 20) & 0xFFFFF,
            request_id == bits & 0xFFFFF,
    ;
    (cell, fd as GuestFd, request_id)
}

/// `completion` is that of the request tagged `user_data`, with `result`.
pub open spec fn is_completion_of(completion: IoCompletion, user_data: u64, result: i32) -> bool {
    &&& completion.cell < 0x100_0000
    &&& completion.guest_fd < 0x10_0000
    &&& completion.request_id < 0x10_0000
    &&& user_data == user_data_of(completion.cell, completion.guest_fd, completion.request_id)
    &&& completion.result == result
}

/// The completion that the kernel reports for the request tagged `user_data`.
pub fn completion_of(user_data: u64, result: i32) -> (completion: IoCompletion)
    ensures
        is_completion_of(completion, user_data, result),
{
    let (cell, guest_fd, request_id) = unpack_user_data(user_data);
    IoCompletion { cell, guest_fd, request_id, result }
}

/// The completions for the tags and results that the kernel reports, in the
/// order of its queue.
pub fn completions_of(reported: &[(u64, i32)]) -> (completions: Vec<IoCompletion>)
    ensures
        completions@.len() == reported@.len(),
        forall|k: int|
            0 <= k < reported@.len() ==> is_completion_of(
                #[trigger] completions@[k],
                reported@[k].0,
                reported@[k].1,
            ),
{
    let mut completions: Vec<IoCompletion> = Vec::new();
    let mut i: usize = 0;
    while i < reported.len()
        invariant
            i <= reported@.len(),
            completions@.len() == i,
            forall|k: int|
                0 <= k < i ==> is_completion_of(
                    #[trigger] completions@[k],
                    reported@[k].0,
                    reported@[k].1,
                ),
        decreases reported@.len() - i,
    {
        let (user_data, result) = reported[i];
        completions.push(completion_of(user_data, result));
        i += 1;
    }
    completions
}

/// A completion goes to the request that it belongs to: the one that was
/// tagged when it was submitted.
pub proof fn law_completion_finds_its_request(
    completion: IoCompletion,
    cell: CellId,
    guest_fd: GuestFd,
    request_id: u64,
    user_data: u64,
    result: i32,
)
    requires
        cell < 0x100_0000,
        guest_fd < 0x10_0000,
        request_id < 0x10_0000,
        user_data == user_data_of(cell, guest_fd, request_id),
        is_completion_of(completion, user_data, result),
    ensures
        completion == (IoCompletion { cell, guest_fd, request_id, result }),
{
    law_user_data_round_trips(
        (completion.cell, completion.guest_fd, completion.request_id),
        (cell, guest_fd, request_id),
    );
}

/// A tag belongs to one request only, so that taking apart what was packed
/// gives back the cell, the fd and the request.
pub proof fn law_user_data_round_trips(
    a: (CellId, GuestFd, u64),
    b: (CellId, GuestFd, u64),
)
    requires
        a.0 < 0x100_0000,
        a.1 < 0x10_0000,
        a.2 < 0x10_0000,
        b.0 < 0x100_0000,
        b.1 < 0x10_0000,
        b.2 < 0x10_0000,
        user_data_of(a.0, a.1, a.2) == user_data_of(b.0, b.1, b.2),
    ensures
        a == b,
{
}

/// Registering or closing one fd leaves every other fd of the table resolved
/// as before.
pub proof fn law_fds_are_independent(
    table: Map<GuestFd, i32>,
    guest_fd: GuestFd,
    host_fd: i32,
    other: GuestFd,
)
    requires
        other != guest_fd,
    ensures
        table.insert(guest_fd, host_fd).contains_key(other) == table.contains_key(other),
        table.remove(guest_fd).contains_key(other) == table.contains_key(other),
        table.contains_key(other) ==> table.insert(guest_fd, host_fd)[other] == table[other]
            && table.remove(guest_fd)[other] == table[other],
        !table.remove(guest_fd).contains_key(guest_fd),
{
}

/// What can be done to a table of fds.
pub enum FdOp {
    Register(i32),
    Close(GuestFd),
}

/// A table and its next fd after the given operations.
pub open spec fn fds_after(
    table: Map<GuestFd, i32>,
    next_fd: int,
    ops: Seq<FdOp>,
) -> (Map<GuestFd, i32>, int)
    decreases ops.len(),
{
    if ops.len() == 0 {
        (table, next_fd)
    } else {
        let before = fds_after(table, next_fd, ops.drop_last());
        match ops.last() {
            FdOp::Register(host_fd) => (before.0.insert(before.1 as u32, host_fd), before.1 + 1),
            FdOp::Close(guest_fd) => (before.0.remove(guest_fd), before.1),
        }
    }
}

/// An fd that was handed out and closed stays closed, whatever is registered
/// and closed afterwards.
pub proof fn law_closed_fd_stays_closed(
    table: Map<GuestFd, i32>,
    next_fd: int,
    guest_fd: GuestFd,
    ops: Seq<FdOp>,
)
    requires
        guest_fd < next_fd,
        fds_after(table.remove(guest_fd), next_fd, ops).1 <= u32::MAX,
    ensures
        !fds_after(table.remove(guest_fd), next_fd, ops).0.contains_key(guest_fd),
        next_fd <= fds_after(table.remove(guest_fd), next_fd, ops).1,
    decreases ops.len(),
{
    if ops.len() > 0 {
        law_closed_fd_stays_closed(table, next_fd, guest_fd, ops.drop_last());
    }
}

/// A tag splits into the fields that were packed, each in its own bits.
pub proof fn law_user_data_splits_into_fields(cell: CellId, guest_fd: GuestFd, request_id: u64)
    requires
        cell < 0x100_0000,
        guest_fd < 0x10_0000,
        request_id < 0x10_0000,
    ensures
        user_data_of(cell, guest_fd, request_id) / 0x100_0000_0000 == cell,
        (user_data_of(cell, guest_fd, request_id) / 0x10_0000) % 0x10_0000 == guest_fd,
        user_data_of(cell, guest_fd, request_id) % 0x10_0000 == request_id,
        0 <= user_data_of(cell, guest_fd, request_id) <= u64::MAX,
{
}

/// The stand-in completes a request for its own cell, fd and request, with the
/// length that was asked for, read as a signed number of 32 bits.
pub proof fn law_stub_transfers_everything(
    cell: CellId,
    guest_fd: GuestFd,
    request_id: u64,
    len: u32,
)
    ensures
        ({
            let completion = full_transfer(cell, guest_fd, request_id, len);
            &&& completion.cell == cell
            &&& completion.guest_fd == guest_fd
            &&& completion.request_id == request_id
            &&& len <= i32::MAX ==> completion.result == len
            &&& len > i32::MAX ==> completion.result == len - 0x1_0000_0000
        }),
{
}

} // verus!
