//! Software-fault-isolated guest linear memory.
//!
//! Layout per cell:
//!
//! ```text
//! [ ----------- linear memory (quota, whole pages) ----------- ][ guard page ]
//! ```
//!
//! Every guest access is bounds-checked against the *declared* memory size
//! before a byte is touched. Where the region is a mapping of the host, the
//! guard page behind it is a second, independent line of defense.

use vstd::prelude::*;

use crate::dirty::DirtyPageSet;

verus! {

pub const PAGE_SIZE: usize = 4096;

/// The pages of the guest's 32-bit address space.
pub const MAX_PAGES: u64 = 0x10_0000;

#[derive(Debug, Clone)]
pub enum MemFault {
    /// Guest access out of bounds.
    OutOfBounds { ptr: u32, len: u32, size: u32 },
    /// The requested growth would exceed the tenant's quota.
    QuotaExceeded { requested: u32, quota: u32 },
    /// The host refused the region.
    MmapFailed(String),
    /// The host refused to protect the guard page.
    MprotectFailed(String),
    /// Integer overflow computing the memory layout.
    LayoutOverflow,
}

/// The number of pages that hold `bytes` bytes.
pub open spec fn pages_for(bytes: int) -> int {
    (bytes + PAGE_SIZE - 1) / PAGE_SIZE as int
}

/// The bytes of page `page_idx` of a region.
pub open spec fn page_of(region: Seq<u8>, page_idx: u64) -> Seq<u8> {
    region.subrange(page_idx * PAGE_SIZE, page_idx * PAGE_SIZE + PAGE_SIZE)
}

/// `region` with `data` written at `at`.
pub open spec fn overwrite(region: Seq<u8>, at: int, data: Seq<u8>) -> Seq<u8> {
    Seq::new(
        region.len(),
        |i: int|
            if at <= i < at + data.len() {
                data[i - at]
            } else {
                region[i]
            },
    )
}

/// Where a tenant's region and its guard page lie.
#[derive(Debug, Clone, Copy, PartialEq, Eq)]
pub struct RegionLayout {
    /// Pages of linear memory: the quota, rounded up.
    pub quota_pages: usize,
    /// Bytes of linear memory. The guard page starts behind them.
    pub quota_rounded: usize,
    /// Bytes of the guard.
    pub guard_bytes: usize,
    /// Bytes of the whole region, guard included.
    pub mapped_len: usize,
}

impl RegionLayout {
    /// Lays out a region for `quota_bytes`, of which `initial_bytes` are
    /// committed at once. One guard page suffices for single-instruction
    /// overruns.
    pub fn plan(initial_bytes: u32, quota_bytes: u32) -> (layout: Result<RegionLayout, MemFault>)
        ensures
            initial_bytes > quota_bytes ==> layout == Err::<RegionLayout, MemFault>(
                MemFault::QuotaExceeded { requested: initial_bytes, quota: quota_bytes },
            ),
            initial_bytes <= quota_bytes && (pages_for(quota_bytes as int) + 1) * PAGE_SIZE
                > usize::MAX ==> layout == Err::<RegionLayout, MemFault>(MemFault::LayoutOverflow),
            initial_bytes <= quota_bytes && (pages_for(quota_bytes as int) + 1) * PAGE_SIZE
                <= usize::MAX ==> {
                &&& layout is Ok
                &&& layout->Ok_0.quota_pages == pages_for(quota_bytes as int)
                &&& layout->Ok_0.quota_rounded == pages_for(quota_bytes as int) * PAGE_SIZE
                &&& layout->Ok_0.guard_bytes == PAGE_SIZE
                &&& layout->Ok_0.mapped_len == layout->Ok_0.quota_rounded + PAGE_SIZE
            },
    {
        if initial_bytes > quota_bytes {
            return Err(MemFault::QuotaExceeded { requested: initial_bytes, quota: quota_bytes });
        }
        let page_size: u64 = PAGE_SIZE as u64;
        let quota_pages: usize = ((quota_bytes as u64 + page_size - 1) / page_size) as usize;
        match quota_pages.checked_mul(PAGE_SIZE) {
            None => Err(MemFault::LayoutOverflow),
            Some(quota_rounded) => {
                let guard_bytes: usize = PAGE_SIZE;
                match quota_rounded.checked_add(guard_bytes) {
                    None => Err(MemFault::LayoutOverflow),
                    Some(mapped_len) => Ok(
                        RegionLayout { quota_pages, quota_rounded, guard_bytes, mapped_len },
                    ),
                }
            },
        }
    }
}

/// The bounds of a guest's memory: what is committed of what it may ever have.
#[derive(Debug, Clone, Copy, PartialEq, Eq)]
pub struct MemoryBounds {
    /// Bytes currently committed and visible to the guest.
    pub size_bytes: u32,
    /// Hard ceiling for this tenant, in bytes.
    pub quota_bytes: u32,
}

impl MemoryBounds {
    /// The `len` bytes at `guest_ptr` are committed.
    pub open spec fn admits(self, guest_ptr: u32, len: int) -> bool {
        guest_ptr + len <= self.size_bytes
    }

    /// The fault for an access that is not committed.
    pub open spec fn out_of_bounds(self, guest_ptr: u32, len: u32) -> MemFault {
        MemFault::OutOfBounds { ptr: guest_ptr, len, size: self.size_bytes }
    }

    /// The size that growing by `delta_pages` asks for.
    pub open spec fn size_asked(self, delta_pages: u32) -> int {
        self.size_bytes + delta_pages * PAGE_SIZE
    }

    /// The bounds after growing by `delta_pages`: unchanged where that would
    /// exceed the quota.
    pub open spec fn grown(self, delta_pages: u32) -> MemoryBounds {
        if self.size_asked(delta_pages) <= self.quota_bytes {
            MemoryBounds { size_bytes: self.size_asked(delta_pages) as u32, ..self }
        } else {
            self
        }
    }

    /// What growing by `delta_pages` returns: the previous page count, or a
    /// refusal that reports the size asked for in 32 bits.
    pub open spec fn growth(self, delta_pages: u32) -> Result<u32, MemFault> {
        if self.size_asked(delta_pages) <= self.quota_bytes {
            Ok(self.size_bytes / PAGE_SIZE as u32)
        } else {
            Err(
                MemFault::QuotaExceeded {
                    requested: (self.size_asked(delta_pages) % 0x1_0000_0000) as u32,
                    quota: self.quota_bytes,
                },
            )
        }
    }

    /// The primary bounds check: where the `len` bytes at `guest_ptr` start
    /// in the region, provided that they neither overflow the guest's address
    /// space nor exceed the committed size.
    pub fn translate(&self, guest_ptr: u32, len: u32) -> (offset: Result<usize, MemFault>)
        ensures
            self.admits(guest_ptr, len as int) ==> offset == Ok::<usize, MemFault>(
                guest_ptr as usize,
            ),
            !self.admits(guest_ptr, len as int) ==> offset == Err::<usize, MemFault>(
                self.out_of_bounds(guest_ptr, len),
            ),
    {
        match guest_ptr.checked_add(len) {
            None => Err(MemFault::OutOfBounds { ptr: guest_ptr, len, size: self.size_bytes }),
            Some(end) => {
                if end > self.size_bytes {
                    Err(MemFault::OutOfBounds { ptr: guest_ptr, len, size: self.size_bytes })
                } else {
                    Ok(guest_ptr as usize)
                }
            },
        }
    }

    /// Commits `delta_pages` more pages, within the quota. Returns the
    /// previous page count. A refusal reports the size asked for, in 32 bits.
    pub fn grow(&mut self, delta_pages: u32) -> (previous_pages: Result<u32, MemFault>)
        ensures
            *final(self) == old(self).grown(delta_pages),
            previous_pages == old(self).growth(delta_pages),
            previous_pages is Ok <==> old(self).size_bytes + delta_pages * PAGE_SIZE
                <= old(self).quota_bytes,
            previous_pages is Ok ==> previous_pages->Ok_0 == old(self).size_bytes / 4096
                && final(self).size_bytes == old(self).size_bytes + delta_pages * PAGE_SIZE,
    {
        assert(delta_pages as u64 * PAGE_SIZE as u64 <= u32::MAX * 0x1000) by (nonlinear_arith)
            requires
                PAGE_SIZE == 0x1000,
        ;
        let delta_bytes: u64 = delta_pages as u64 * PAGE_SIZE as u64;
        assert(delta_bytes == delta_pages * PAGE_SIZE);
        let new_size: u64 = self.size_bytes as u64 + delta_bytes;
        if new_size > self.quota_bytes as u64 {
            let requested: u32 = (new_size % 0x1_0000_0000) as u32;
            return Err(MemFault::QuotaExceeded { requested, quota: self.quota_bytes });
        }
        let previous_pages: u32 = self.size_bytes / PAGE_SIZE as u32;
        self.size_bytes = new_size as u32;
        Ok(previous_pages)
    }
}

/// Some value that depends on `memory` alone, of which nothing is known.
pub closed spec fn unspecified<M, V>(memory: M) -> V {
    (choose|pair: (M, V)| pair.0 == memory).1
}

/// Any backing store for a cell's linear memory, whether isolation is
/// enforced by software bounds checks or by hardware nested paging.
pub trait GuardedMemory: Sized {
    /// The bytes of the region, committed or not. Whole pages. Like the three
    /// below, it is left open where a memory does not say what it is.
    open spec fn region(&self) -> Seq<u8> {
        unspecified(*self)
    }

    /// The committed size and the quota.
    open spec fn bounds(&self) -> MemoryBounds {
        unspecified(*self)
    }

    /// The pages written since the last checkpoint or replication flush.
    open spec fn dirty(&self) -> Set<u64> {
        unspecified(*self)
    }

    /// The number of pages in the region.
    open spec fn page_count(&self) -> u64 {
        unspecified(*self)
    }

    /// Validate a guest pointer and length and give the bytes there, never
    /// any outside the committed memory.
    fn translate(&self, guest_ptr: u32, len: u32) -> (bytes: Result<&[u8], MemFault>)
        ensures
            self.bounds().admits(guest_ptr, len as int) ==> {
                &&& guest_ptr + len <= self.region().len()
                &&& bytes is Ok
                &&& bytes->Ok_0@ == self.region().subrange(guest_ptr as int, guest_ptr + len)
            },
            !self.bounds().admits(guest_ptr, len as int) ==> bytes == Err::<&[u8], MemFault>(
                self.bounds().out_of_bounds(guest_ptr, len),
            ),
    ;

    /// Write `data` at a guest pointer, under the same check as `translate`.
    /// Does not mark the pages dirty: see `mark_dirty`.
    fn store(&mut self, guest_ptr: u32, data: &[u8]) -> (stored: Result<(), MemFault>)
        requires
            data@.len() <= u32::MAX,
        ensures
            final(self).bounds() == old(self).bounds(),
            final(self).dirty() == old(self).dirty(),
            final(self).page_count() == old(self).page_count(),
            old(self).bounds().admits(guest_ptr, data@.len() as int) ==> {
                &&& stored is Ok
                &&& final(self).region() == overwrite(old(self).region(), guest_ptr as int, data@)
            },
            !old(self).bounds().admits(guest_ptr, data@.len() as int) ==> {
                &&& stored is Err
                &&& stored->Err_0 == old(self).bounds().out_of_bounds(guest_ptr, data@.len() as u32)
                &&& final(self).region() == old(self).region()
            },
    ;

    /// Grow the linear memory by `delta_pages`, enforcing the tenant's quota.
    /// Returns the *previous* page count on success, as Wasm's `memory.grow`
    /// does.
    fn grow(&mut self, delta_pages: u32) -> (previous_pages: Result<u32, MemFault>)
        ensures
            final(self).region() == old(self).region(),
            final(self).dirty() == old(self).dirty(),
            final(self).page_count() == old(self).page_count(),
            final(self).bounds() == old(self).bounds().grown(delta_pages),
            previous_pages == old(self).bounds().growth(delta_pages),
    ;

    /// Current committed size, in bytes. It is within the quota, and the quota
    /// within the pages of the region.
    fn size_bytes(&self) -> (size: u32)
        ensures
            size == self.bounds().size_bytes,
            self.bounds().size_bytes <= self.bounds().quota_bytes <= self.region().len(),
            self.region().len() == self.page_count() * PAGE_SIZE,
    ;

    /// Read-only view of which pages have been written since the last
    /// checkpoint or replication flush.
    fn dirty_pages(&self) -> (dirty: &DirtyPageSet)
        ensures
            dirty@ == self.dirty(),
            dirty.capacity() == self.page_count(),
            forall|p: u64| #[trigger] self.dirty().contains(p) ==> p < self.page_count(),
    ;

    /// Empties the dirty set. Reserved for the supervisor's flush step.
    fn clear_dirty_pages(&mut self)
        ensures
            final(self).dirty() == Set::<u64>::empty(),
            final(self).region() == old(self).region(),
            final(self).bounds() == old(self).bounds(),
            final(self).page_count() == old(self).page_count(),
    ;

    /// Mark a page dirty. Called by the store path after every guest write
    /// that the bounds check approved, so that reads never touch the set.
    fn mark_dirty(&mut self, page_idx: u64)
        requires
            page_idx < old(self).page_count(),
        ensures
            final(self).dirty() == old(self).dirty().insert(page_idx),
            final(self).region() == old(self).region(),
            final(self).bounds() == old(self).bounds(),
            final(self).page_count() == old(self).page_count(),
    ;

    /// The bytes of a single page, for checkpoint hashing and delta diffing.
    fn page_bytes(&self, page_idx: u64) -> (bytes: &[u8])
        requires
            page_idx < self.page_count(),
        ensures
            bytes@ == page_of(self.region(), page_idx),
            bytes@.len() == PAGE_SIZE,
            self.page_count() <= MAX_PAGES,
    ;
}

/// A region for `quota_bytes`, with `initial_bytes` committed, is one that an
/// allocation can hold.
pub open spec fn region_fits(initial_bytes: u32, quota_bytes: u32) -> bool {
    &&& initial_bytes <= quota_bytes
    &&& (pages_for(quota_bytes as int) + 1) * PAGE_SIZE <= usize::MAX
    &&& pages_for(quota_bytes as int) * PAGE_SIZE <= isize::MAX
}

/// The fault for a region that cannot be made: for its bounds, or because the
/// host refused the memory.
pub open spec fn is_refusal(fault: MemFault, initial_bytes: u32, quota_bytes: u32) -> bool {
    if initial_bytes > quota_bytes {
        fault == (MemFault::QuotaExceeded { requested: initial_bytes, quota: quota_bytes })
    } else if (pages_for(quota_bytes as int) + 1) * PAGE_SIZE > usize::MAX {
        fault == MemFault::LayoutOverflow
    } else {
        fault is MmapFailed && fault->MmapFailed_0@ == "cannot allocate memory"@
    }
}

/// A memory that was just made: zero-filled, with nothing dirty.
pub open spec fn is_fresh<M: GuardedMemory>(
    memory: M,
    initial_bytes: u32,
    quota_bytes: u32,
) -> bool {
    &&& memory.bounds() == (MemoryBounds { size_bytes: initial_bytes, quota_bytes })
    &&& memory.page_count() == pages_for(quota_bytes as int)
    &&& memory.region() == crate::delta::zeros(
        (pages_for(quota_bytes as int) * PAGE_SIZE) as nat,
    )
    &&& memory.dirty() == Set::<u64>::empty()
}

/// Software-fault-isolated memory region, sized to the tenant's quota in
/// whole pages and zero-filled at first. It is one allocation of the process,
/// reached through checked slices only, without a guard page. A mapping of the
/// host, with one, implements the same trait.
pub struct MmapGuardedMemory {
    /// The linear memory, without the guard.
    region: Vec<u8>,
    bounds: MemoryBounds,
    dirty: DirtyPageSet,
}

impl MmapGuardedMemory {
    /// The committed memory lies within the region, and the dirty set tracks
    /// exactly the pages of the region.
    #[verifier::type_invariant]
    spec fn inv(self) -> bool {
        &&& self.bounds.size_bytes <= self.bounds.quota_bytes <= self.region@.len()
        &&& self.region@.len() == self.dirty.capacity() * PAGE_SIZE
        &&& self.region@.len() <= isize::MAX
        &&& self.dirty.capacity() <= MAX_PAGES
        &&& forall|p: u64| #[trigger] self.dirty@.contains(p) ==> p < self.dirty.capacity()
    }

    /// Construct a region for `quota_bytes`, rounded up to the next page
    /// boundary, with `initial_bytes` committed and immediately accessible to
    /// the guest. Whether there is memory for it is up to the host: where it
    /// refuses, so does this function.
    pub fn new(initial_bytes: u32, quota_bytes: u32) -> (memory: Result<Self, MemFault>)
        ensures
            memory is Ok ==> region_fits(initial_bytes, quota_bytes) && is_fresh(
                memory->Ok_0,
                initial_bytes,
                quota_bytes,
            ),
            memory is Err ==> is_refusal(memory->Err_0, initial_bytes, quota_bytes),
    {
        let layout = match RegionLayout::plan(initial_bytes, quota_bytes) {
            Err(fault) => return Err(fault),
            Ok(layout) => layout,
        };
        let mut room: Vec<u8> = Vec::new();
        let granted = layout.quota_rounded <= isize::MAX as usize && room.try_reserve(
            layout.quota_rounded,
        ).is_ok();
        if granted {
            Self::in_allocation(initial_bytes, quota_bytes, Some(room))
        } else {
            Self::in_allocation(initial_bytes, quota_bytes, None)
        }
    }

    /// Construct a region as `new` does, in the room that the host granted, or
    /// `None` where it refused.
    pub fn in_allocation(initial_bytes: u32, quota_bytes: u32, room: Option<Vec<u8>>) -> (
        memory: Result<Self, MemFault>)
        requires
            room is Some ==> room->Some_0@.len() == 0 && pages_for(quota_bytes as int) * PAGE_SIZE
                <= isize::MAX,
        ensures
            memory is Ok <==> room is Some && region_fits(initial_bytes, quota_bytes),
            memory is Ok ==> is_fresh(memory->Ok_0, initial_bytes, quota_bytes),
            memory is Err ==> is_refusal(memory->Err_0, initial_bytes, quota_bytes),
    {
        let layout = match RegionLayout::plan(initial_bytes, quota_bytes) {
            Err(fault) => return Err(fault),
            Ok(layout) => layout,
        };
        let mut region: Vec<u8> = match room {
            None => return Err(MemFault::MmapFailed("cannot allocate memory".to_string())),
            Some(room) => room,
        };
        region.resize(layout.quota_rounded, 0);
        let dirty = DirtyPageSet::new(layout.quota_pages as u64);
        let memory = MmapGuardedMemory {
            region,
            bounds: MemoryBounds { size_bytes: initial_bytes, quota_bytes },
            dirty,
        };
        assert(memory.region() =~= crate::delta::zeros(
            (pages_for(quota_bytes as int) * PAGE_SIZE) as nat,
        ));
        Ok(memory)
    }

    /// Moves the memory out, leaving an empty one.
    fn take(&mut self) -> (memory: Self)
        ensures
            memory == *old(self),
    {
        let mut memory = MmapGuardedMemory {
            region: Vec::new(),
            bounds: MemoryBounds { size_bytes: 0, quota_bytes: 0 },
            dirty: DirtyPageSet::vacant(),
        };
        std::mem::swap(self, &mut memory);
        memory
    }
}

impl GuardedMemory for MmapGuardedMemory {
    closed spec fn region(&self) -> Seq<u8> {
        self.region@
    }

    closed spec fn bounds(&self) -> MemoryBounds {
        self.bounds
    }

    closed spec fn dirty(&self) -> Set<u64> {
        self.dirty@
    }

    closed spec fn page_count(&self) -> u64 {
        self.dirty.capacity()
    }

    fn translate(&self, guest_ptr: u32, len: u32) -> (bytes: Result<&[u8], MemFault>) {
        proof {
            use_type_invariant(self);
        }
        match self.bounds.translate(guest_ptr, len) {
            Err(fault) => Err(fault),
            Ok(offset) => Ok(
                vstd::slice::slice_subrange(self.region.as_slice(), offset, offset + len as usize),
            ),
        }
    }

    fn store(&mut self, guest_ptr: u32, data: &[u8]) -> (stored: Result<(), MemFault>) {
        proof {
            use_type_invariant(&*self);
        }
        match self.bounds.translate(guest_ptr, data.len() as u32) {
            Err(fault) => Err(fault),
            Ok(offset) => {
                let ghost before = *self;
                let mut i: usize = 0;
                while i < data.len()
                    invariant
                        i <= data@.len(),
                        offset == guest_ptr,
                        offset + data@.len() <= before.region@.len(),
                        before.region@.len() <= isize::MAX,
                        self.region@.len() == before.region@.len(),
                        self.bounds == before.bounds,
                        self.dirty == before.dirty,
                        forall|j: int|
                            0 <= j < self.region@.len() ==> #[trigger] self.region@[j] == (if offset
                                <= j < offset + i {
                                data@[j - offset]
                            } else {
                                before.region@[j]
                            }),
                    decreases data@.len() - i,
                {
                    proof {
                        use_type_invariant(&*self);
                    }
                    self.region[offset + i] = data[i];
                    i = i + 1;
                }
                assert(self.region@ =~= overwrite(before.region@, guest_ptr as int, data@));
                Ok(())
            },
        }
    }

    fn grow(&mut self, delta_pages: u32) -> (previous_pages: Result<u32, MemFault>) {
        proof {
            use_type_invariant(&*self);
        }
        let mut bounds: MemoryBounds = self.bounds;
        let previous_pages = bounds.grow(delta_pages);
        self.bounds = bounds;
        previous_pages
    }

    fn size_bytes(&self) -> (size: u32) {
        proof {
            use_type_invariant(self);
        }
        self.bounds.size_bytes
    }

    fn dirty_pages(&self) -> (dirty: &DirtyPageSet) {
        proof {
            use_type_invariant(self);
        }
        &self.dirty
    }

    fn clear_dirty_pages(&mut self) {
        let memory = self.take();
        proof {
            use_type_invariant(&memory);
        }
        let MmapGuardedMemory { region, bounds, mut dirty } = memory;
        dirty.clear_all();
        *self = MmapGuardedMemory { region, bounds, dirty };
    }

    fn mark_dirty(&mut self, page_idx: u64) {
        let memory = self.take();
        proof {
            use_type_invariant(&memory);
        }
        let MmapGuardedMemory { region, bounds, mut dirty } = memory;
        dirty.mark(page_idx);
        *self = MmapGuardedMemory { region, bounds, dirty };
    }

    fn page_bytes(&self, page_idx: u64) -> (bytes: &[u8]) {
        proof {
            use_type_invariant(self);
            assert(page_idx * PAGE_SIZE + PAGE_SIZE <= self.region@.len()) by (nonlinear_arith)
                requires
                    page_idx < self.dirty.capacity(),
                    self.region@.len() == self.dirty.capacity() * PAGE_SIZE,
            ;
        }
        let offset: usize = page_idx as usize * PAGE_SIZE;
        vstd::slice::slice_subrange(self.region.as_slice(), offset, offset + PAGE_SIZE)
    }
}

/// Growth never moves the committed size past the quota, never shrinks it,
/// and never changes the quota; a refused growth changes nothing.
pub proof fn law_growth_stays_within_quota(bounds: MemoryBounds, delta_pages: u32)
    requires
        bounds.size_bytes <= bounds.quota_bytes,
    ensures
        ({
            let after = bounds.grown(delta_pages);
            &&& bounds.size_bytes <= after.size_bytes <= after.quota_bytes
            &&& after.quota_bytes == bounds.quota_bytes
            &&& bounds.growth(delta_pages) is Err ==> after == bounds
        }),
{
}

/// An access that is admitted stays admitted as the memory grows.
pub proof fn law_growth_keeps_accesses(
    bounds: MemoryBounds,
    delta_pages: u32,
    guest_ptr: u32,
    len: int,
)
    requires
        bounds.admits(guest_ptr, len),
    ensures
        bounds.grown(delta_pages).admits(guest_ptr, len),
{
}

/// What was stored is what is loaded, and a store touches no other byte: any
/// range apart from the one written reads as before.
pub proof fn law_load_returns_store(region: Seq<u8>, at: int, data: Seq<u8>, from: int, to: int)
    requires
        0 <= at,
        at + data.len() <= region.len(),
        0 <= from <= to <= region.len(),
        to <= at || at + data.len() <= from,
    ensures
        overwrite(region, at, data).len() == region.len(),
        overwrite(region, at, data).subrange(at, at + data.len()) == data,
        overwrite(region, at, data).subrange(from, to) == region.subrange(from, to),
{
    let after = overwrite(region, at, data);
    assert(after.subrange(at, at + data.len()) =~= data);
    assert(after.subrange(from, to) =~= region.subrange(from, to));
}

/// A growth is granted exactly if the memory then stays within the quota. It
/// returns the whole pages that were committed before, however many are asked
/// for, and commits just as many more; where the memory was page-aligned, the
/// two add up to the pages afterwards. A refused one changes nothing, and
/// reports the quota and the size asked for in 32 bits.
pub proof fn law_growth_returns_previous_pages(bounds: MemoryBounds, delta_pages: u32)
    ensures
        ({
            let asked = bounds.size_bytes + delta_pages * PAGE_SIZE;
            let (answer, after) = (bounds.growth(delta_pages), bounds.grown(delta_pages));
            &&& answer is Ok <==> asked <= bounds.quota_bytes
            &&& after.quota_bytes == bounds.quota_bytes
            &&& answer is Ok ==> {
                &&& answer->Ok_0 * 4096 <= bounds.size_bytes < answer->Ok_0 * 4096 + 4096
                &&& after.size_bytes == asked
                &&& bounds.size_bytes % 4096 == 0 ==> (answer->Ok_0 + delta_pages) * PAGE_SIZE
                    == after.size_bytes
            }
            &&& answer is Err ==> {
                &&& after == bounds
                &&& answer->Err_0 is QuotaExceeded
                &&& answer->Err_0->quota == bounds.quota_bytes
                &&& (asked - answer->Err_0->requested) % 0x1_0000_0000 == 0
            }
        }),
{
    let asked = bounds.size_bytes + delta_pages * PAGE_SIZE;
    let pages = (bounds.size_bytes / PAGE_SIZE as u32) as int;
    assert(pages == bounds.size_bytes as int / 4096);
    assert(pages * 4096 <= bounds.size_bytes < pages * 4096 + 4096);
    assert(asked - asked % 0x1_0000_0000 == (asked / 0x1_0000_0000) * 0x1_0000_0000);
}

/// What a growth returns does not depend on how much is asked for, and growing
/// in two steps is growing in one.
pub proof fn law_growth_adds_up(bounds: MemoryBounds, first: u32, second: u32)
    requires
        first + second <= u32::MAX,
        bounds.growth((first + second) as u32) is Ok,
    ensures
        bounds.growth(first) == bounds.growth((first + second) as u32),
        bounds.grown(first).growth(second) is Ok,
        bounds.grown(first).grown(second) == bounds.grown((first + second) as u32),
{
}

/// An access is admitted exactly if it ends within the committed size, and the
/// fault for one that does not names it.
pub proof fn law_access_ends_within_size(bounds: MemoryBounds, guest_ptr: u32, len: u32)
    ensures
        bounds.admits(guest_ptr, len as int) <==> guest_ptr + len <= bounds.size_bytes,
        bounds.out_of_bounds(guest_ptr, len) is OutOfBounds,
        bounds.out_of_bounds(guest_ptr, len)->ptr == guest_ptr,
        bounds.out_of_bounds(guest_ptr, len)->len == len,
        bounds.out_of_bounds(guest_ptr, len)->size == bounds.size_bytes,
{
}

/// Pages tile a region: byte `i` of page `p` is byte `p * PAGE_SIZE + i` of the
/// region.
pub proof fn law_pages_tile_region(region: Seq<u8>, p: u64, i: int)
    requires
        p * PAGE_SIZE + PAGE_SIZE <= region.len(),
        0 <= i < PAGE_SIZE,
    ensures
        page_of(region, p).len() == PAGE_SIZE,
        page_of(region, p)[i] == region[p * PAGE_SIZE + i],
{
}

/// Two regions of whole pages that agree on every page are the same.
pub proof fn law_pages_determine_region(a: Seq<u8>, b: Seq<u8>, page_count: u64)
    requires
        a.len() == page_count * PAGE_SIZE,
        b.len() == page_count * PAGE_SIZE,
        forall|p: u64| p < page_count ==> #[trigger] page_of(a, p) == page_of(b, p),
    ensures
        a == b,
{
    assert forall|k: int| 0 <= k < a.len() implies a[k] == b[k] by {
        let p = k / PAGE_SIZE as int;
        let i = k % PAGE_SIZE as int;
        assert(p < page_count) by (nonlinear_arith)
            requires
                p * PAGE_SIZE + i == k,
                k < page_count * PAGE_SIZE,
                0 <= i,
        ;
        assert(p * PAGE_SIZE + PAGE_SIZE <= page_count * PAGE_SIZE) by (nonlinear_arith)
            requires
                p < page_count,
        ;
        law_pages_tile_region(a, p as u64, i);
        law_pages_tile_region(b, p as u64, i);
        assert(page_of(a, p as u64) == page_of(b, p as u64));
    }
    assert(a =~= b);
}

/// A stored byte shows in the page that holds its address, and a byte that was
/// not stored to shows there as before.
pub proof fn law_store_shows_in_its_page(
    region: Seq<u8>,
    page_count: u64,
    at: int,
    data: Seq<u8>,
    address: int,
)
    requires
        region.len() == page_count * PAGE_SIZE,
        0 <= at,
        at + data.len() <= region.len(),
        0 <= address < region.len(),
    ensures
        ({
            let page = page_of(
                overwrite(region, at, data),
                (address / PAGE_SIZE as int) as u64,
            );
            page[address % PAGE_SIZE as int] == (if at <= address < at + data.len() {
                data[address - at]
            } else {
                region[address]
            })
        }),
{
    let p = address / PAGE_SIZE as int;
    let i = address % PAGE_SIZE as int;
    assert(p < page_count) by (nonlinear_arith)
        requires
            p * PAGE_SIZE + i == address,
            address < page_count * PAGE_SIZE,
            0 <= i,
    ;
    assert(p * PAGE_SIZE + PAGE_SIZE <= page_count * PAGE_SIZE) by (nonlinear_arith)
        requires
            p < page_count,
    ;
    law_pages_tile_region(overwrite(region, at, data), p as u64, i);
}

/// The pages for a number of bytes hold them, and none to spare.
pub proof fn law_pages_hold_bytes_tightly(bytes: int)
    requires
        0 <= bytes,
    ensures
        bytes <= pages_for(bytes) * PAGE_SIZE < bytes + PAGE_SIZE,
{
}

/// A fresh memory is committed as asked, bounded as asked, zero in every byte,
/// clean in every page, and as large as the quota needs.
pub proof fn law_fresh_memory_is_as_asked<M: GuardedMemory>(
    memory: M,
    initial_bytes: u32,
    quota_bytes: u32,
)
    requires
        is_fresh(memory, initial_bytes, quota_bytes),
    ensures
        memory.bounds().size_bytes == initial_bytes,
        memory.bounds().quota_bytes == quota_bytes,
        memory.region().len() == memory.page_count() * PAGE_SIZE,
        quota_bytes <= memory.region().len() < quota_bytes + PAGE_SIZE,
        forall|i: int| 0 <= i < memory.region().len() ==> #[trigger] memory.region()[i] == 0,
        forall|p: u64| !#[trigger] memory.dirty().contains(p),
{
    law_pages_hold_bytes_tightly(quota_bytes as int);
}

/// A region is refused for its bounds exactly if more is to be committed than
/// the quota allows, and the fault names both.
pub proof fn law_refusal_names_the_bounds(fault: MemFault, initial_bytes: u32, quota_bytes: u32)
    requires
        is_refusal(fault, initial_bytes, quota_bytes),
    ensures
        fault is QuotaExceeded <==> initial_bytes > quota_bytes,
        fault is QuotaExceeded ==> fault->requested == initial_bytes && fault->quota
            == quota_bytes,
        fault is QuotaExceeded || fault is LayoutOverflow || fault is MmapFailed,
{
}

/// Whatever can be addressed can be had, as far as the bounds go: a region is
/// ruled out only for its initial size or because the host cannot address it.
pub proof fn law_region_fits_if_addressable(initial_bytes: u32, quota_bytes: u32)
    ensures
        region_fits(initial_bytes, quota_bytes) ==> initial_bytes <= quota_bytes,
        initial_bytes <= quota_bytes && quota_bytes + 2 * PAGE_SIZE <= isize::MAX ==> region_fits(
            initial_bytes,
            quota_bytes,
        ),
{
    law_pages_hold_bytes_tightly(quota_bytes as int);
}

} // verus!
