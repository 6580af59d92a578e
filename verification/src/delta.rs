//! Delta-compression engine: turns a dirty page's new content plus its last
//! known-good copy into a compact `PageDelta` for streaming to a hot standby.
//!
//! The new page is XORed against the previous copy, and the zero runs that
//! this produces for locality-heavy heap mutations are run-length encoded. A
//! raw copy is sent instead where the XOR stream is not sparse enough for the
//! encoding to win, so a delta never exceeds the page it describes.

use vstd::prelude::*;

use crate::guarded_memory::PAGE_SIZE;

verus! {

/// `n` zero bytes.
pub open spec fn zeros(n: nat) -> Seq<u8> {
    Seq::new(n, |i: int| 0u8)
}

/// The page of zero bytes.
pub open spec fn zero_page() -> Seq<u8> {
    zeros(PAGE_SIZE as nat)
}

/// The bytewise XOR of two pages.
pub open spec fn xor_pages(a: Seq<u8>, b: Seq<u8>) -> Seq<u8> {
    Seq::new(PAGE_SIZE as nat, |i: int| a[i] ^ b[i])
}

/// A stream cut to the length of a page, or padded with zeros up to it.
pub open spec fn page_of_stream(stream: Seq<u8>) -> Seq<u8> {
    Seq::new(
        PAGE_SIZE as nat,
        |i: int|
            if i < stream.len() {
                stream[i]
            } else {
                0u8
            },
    )
}

/// A single run-length-encoded delta record: `zero_run` zero bytes, followed
/// by the bytes of `literal`, copied verbatim from the XOR stream.
#[derive(Debug, Clone, PartialEq, Eq)]
pub struct RunLiteral {
    pub zero_run: u32,
    pub literal: Vec<u8>,
}

impl RunLiteral {
    /// The bytes that the record stands for.
    pub open spec fn bytes(self) -> Seq<u8> {
        zeros(self.zero_run as nat) + self.literal@
    }
}

/// The byte stream that a list of records stands for.
pub open spec fn expand(runs: Seq<RunLiteral>) -> Seq<u8>
    decreases runs.len(),
{
    if runs.len() == 0 {
        Seq::empty()
    } else {
        expand(runs.drop_last()) + runs.last().bytes()
    }
}

/// The wire size of a list of records: two four-byte lengths and the literal,
/// for each.
pub open spec fn encoded_size(runs: Seq<RunLiteral>) -> nat
    decreases runs.len(),
{
    if runs.len() == 0 {
        0
    } else {
        encoded_size(runs.drop_last()) + 8 + runs.last().literal@.len()
    }
}

/// Every record takes in as much of the stream as it can: zero runs hold all
/// the zeros up to the next literal, and literals hold no zero.
pub open spec fn is_maximal(runs: Seq<RunLiteral>) -> bool {
    forall|k: int|
        #![trigger runs[k]]
        0 <= k < runs.len() ==> {
            &&& forall|j: int|
                0 <= j < runs[k].literal@.len() ==> #[trigger] runs[k].literal@[j] != 0
            &&& k > 0 ==> runs[k].zero_run > 0
            &&& k < runs.len() - 1 ==> runs[k].literal@.len() > 0
            &&& runs[k].zero_run > 0 || runs[k].literal@.len() > 0
        }
}

/// `runs` is the run-length encoding of `stream`. There is exactly one: see
/// `law_encoding_is_unique`.
pub open spec fn is_rle_of(runs: Seq<RunLiteral>, stream: Seq<u8>) -> bool {
    is_maximal(runs) && expand(runs) == stream
}

/// The run-length encoding of `stream` takes at least as much room as a page.
pub open spec fn is_dense(stream: Seq<u8>) -> bool {
    exists|runs: Seq<RunLiteral>| #[trigger]
        is_rle_of(runs, stream) && encoded_size(runs) >= PAGE_SIZE
}

#[derive(Debug, Clone, PartialEq, Eq)]
pub enum PageDelta {
    /// XOR-then-RLE encoded delta against the previous page snapshot.
    Xor { page_idx: u64, runs: Vec<RunLiteral> },
    /// The full page: nothing to diff against, or the encoding did not shrink
    /// the payload.
    Raw { page_idx: u64, bytes: [u8; PAGE_SIZE] },
}

impl PageDelta {
    /// The page that the delta is for.
    pub open spec fn page(self) -> u64 {
        match self {
            PageDelta::Xor { page_idx, .. } => page_idx,
            PageDelta::Raw { page_idx, .. } => page_idx,
        }
    }

    /// The wire size of the delta.
    pub open spec fn wire_len(self) -> nat {
        match self {
            PageDelta::Xor { runs, .. } => encoded_size(runs@),
            PageDelta::Raw { .. } => PAGE_SIZE as nat,
        }
    }

    /// The page content that the delta gives, against the copy `previous`.
    pub open spec fn patched(self, previous: Seq<u8>) -> Seq<u8> {
        match self {
            PageDelta::Xor { runs, .. } => xor_pages(previous, page_of_stream(expand(runs@))),
            PageDelta::Raw { bytes, .. } => bytes@,
        }
    }

    /// The delta takes the last copy of the page, where there is one, to
    /// `current`: as an encoded XOR where there is a copy to diff against and
    /// the encoding is smaller than a page, raw otherwise.
    pub open spec fn is_diff(self, copy: Option<Seq<u8>>, page_idx: u64, current: Seq<u8>) -> bool {
        match self {
            PageDelta::Xor { page_idx: p, runs } => {
                &&& p == page_idx
                &&& copy is Some
                &&& is_rle_of(runs@, xor_pages(copy->Some_0, current))
                &&& encoded_size(runs@) < PAGE_SIZE
            },
            PageDelta::Raw { page_idx: p, bytes } => {
                &&& p == page_idx
                &&& bytes@ == current
                &&& copy is Some ==> is_dense(xor_pages(copy->Some_0, current))
            },
        }
    }

    pub fn page_idx(&self) -> (page_idx: u64)
        ensures
            page_idx == self.page(),
    {
        match self {
            PageDelta::Xor { page_idx, .. } => *page_idx,
            PageDelta::Raw { page_idx, .. } => *page_idx,
        }
    }

    /// Approximate wire size, used by the replication consumer to batch
    /// deltas under a fixed per-quantum byte budget.
    pub fn encoded_len(&self) -> (len: usize)
        requires
            self.wire_len() <= usize::MAX,
        ensures
            len == self.wire_len(),
    {
        match self {
            PageDelta::Xor { runs, .. } => encoded_runs_len(runs),
            PageDelta::Raw { .. } => PAGE_SIZE,
        }
    }
}

/// The wire size of a list of records.
fn encoded_runs_len(runs: &Vec<RunLiteral>) -> (len: usize)
    requires
        encoded_size(runs@) <= usize::MAX,
    ensures
        len == encoded_size(runs@),
{
    let mut len: usize = 0;
    let mut k: usize = 0;
    while k < runs.len()
        invariant
            k <= runs@.len(),
            len == encoded_size(runs@.take(k as int)),
            encoded_size(runs@) <= usize::MAX,
        decreases runs@.len() - k,
    {
        proof {
            assert(runs@.take(k + 1).drop_last() =~= runs@.take(k as int));
            lemma_encoded_size_monotone(runs@, k + 1);
        }
        len = len + (8 + runs[k].literal.len());
        k = k + 1;
    }
    assert(runs@.take(k as int) =~= runs@);
    len
}

/// The last copy of page `page_idx` in `copies`.
pub open spec fn copy_of(copies: Map<u64, Seq<u8>>, page_idx: u64) -> Option<Seq<u8>> {
    if copies.contains_key(page_idx) {
        Some(copies[page_idx])
    } else {
        None
    }
}

/// The last copy of page `page_idx` in `copies`, or the zero page.
pub open spec fn copy_or_zero(copies: Map<u64, Seq<u8>>, page_idx: u64) -> Seq<u8> {
    if copies.contains_key(page_idx) {
        copies[page_idx]
    } else {
        zero_page()
    }
}

/// The copies after `delta` has been applied.
pub open spec fn apply_delta(copies: Map<u64, Seq<u8>>, delta: PageDelta) -> Map<u64, Seq<u8>> {
    copies.insert(delta.page(), delta.patched(copy_or_zero(copies, delta.page())))
}

/// The copies after the given pages were committed one after the other.
pub open spec fn commit_all(
    copies: Map<u64, Seq<u8>>,
    pages: Seq<(u64, Seq<u8>)>,
) -> Map<u64, Seq<u8>>
    decreases pages.len(),
{
    if pages.len() == 0 {
        copies
    } else {
        commit_all(copies, pages.drop_last()).insert(pages.last().0, pages.last().1)
    }
}

/// The table that reaches up to page `page_idx` fits in an allocation.
pub open spec fn page_fits(page_idx: u64) -> bool {
    (page_idx + 1) * (PAGE_SIZE + 1) <= isize::MAX
}

/// Stateful diff engine holding the last known-good copy of every page the
/// standby has acknowledged. One instance per cell.
///
/// The view maps each page that has a copy to that copy.
pub struct DeltaEngine {
    /// Last-replicated snapshots, indexed by page number. Grows lazily.
    baseline: Vec<Option<[u8; PAGE_SIZE]>>,
}

impl View for DeltaEngine {
    type V = Map<u64, Seq<u8>>;

    closed spec fn view(&self) -> Map<u64, Seq<u8>> {
        Map::new(
            |p: u64| p < self.baseline@.len() && self.baseline@[p as int] is Some,
            |p: u64| self.baseline@[p as int]->Some_0@,
        )
    }
}

/// How many pages a table with slots for `slots` pages has slots for, once it
/// was made to reach page `page_idx`: it never shrinks, and grows no further
/// than it must.
pub open spec fn slots_reaching(slots: nat, page_idx: u64) -> nat {
    if page_idx < slots {
        slots
    } else {
        page_idx as nat + 1
    }
}

impl DeltaEngine {
    /// The pages that the table has a slot for: those below this number.
    pub closed spec fn slots(&self) -> nat {
        self.baseline@.len()
    }

    /// An engine without copies, whose table has slots for
    /// `initial_capacity_pages`.
    pub fn new(initial_capacity_pages: usize) -> (engine: Self)
        requires
            initial_capacity_pages * (PAGE_SIZE + 1) <= isize::MAX,
        ensures
            engine@ == Map::<u64, Seq<u8>>::empty(),
            engine.slots() == initial_capacity_pages,
    {
        let empty_slot: Option<[u8; PAGE_SIZE]> = None;
        let engine = DeltaEngine { baseline: vec![empty_slot; initial_capacity_pages] };
        assert(engine@ =~= Map::<u64, Seq<u8>>::empty());
        engine
    }

    /// Makes the table reach up to `page_idx`.
    fn ensure_capacity(&mut self, page_idx: usize)
        requires
            page_idx < usize::MAX,
        ensures
            final(self)@ == old(self)@,
            page_idx < final(self).baseline@.len(),
            final(self).slots() == slots_reaching(old(self).slots(), page_idx as u64),
    {
        if page_idx >= self.baseline.len() {
            let ghost before = self.baseline@;
            self.baseline.resize(page_idx + 1, None);
            assert forall|i: int| 0 <= i < before.len() implies self.baseline@[i] == before[i] by {
                assert(self.baseline@.subrange(0, before.len() as int)[i] == before[i]);
            }
            assert(self@ =~= old(self)@);
        }
    }

    /// Stores a copy of a page that the table reaches.
    fn commit(&mut self, page_idx: u64, page: [u8; PAGE_SIZE])
        requires
            page_idx < old(self).baseline@.len(),
        ensures
            final(self)@ == old(self)@.insert(page_idx, page@),
            final(self).slots() == old(self).slots(),
    {
        assert(page_idx < self.baseline.len());
        self.baseline[page_idx as usize] = Some(page);
        assert(self@ =~= old(self)@.insert(page_idx, page@));
    }

    /// Compute the delta for `page_idx` given its current content, and
    /// advance the internal baseline to match. This is a diff-and-commit, not
    /// a pure query: the replication consumer never re-diffs a page that it
    /// has already streamed.
    pub fn diff_and_commit(&mut self, page_idx: u64, current: &[u8]) -> (delta: PageDelta)
        requires
            current@.len() == PAGE_SIZE,
            page_fits(page_idx),
        ensures
            final(self)@ == old(self)@.insert(page_idx, current@),
            final(self).slots() == slots_reaching(old(self).slots(), page_idx),
            delta.is_diff(copy_of(old(self)@, page_idx), page_idx, current@),
            delta.wire_len() <= PAGE_SIZE,
    {
        let idx: usize = page_idx as usize;
        self.ensure_capacity(idx);
        let bytes: [u8; PAGE_SIZE] = page_from_slice(current);
        let slot: Option<[u8; PAGE_SIZE]> = self.baseline[idx];
        // The copy advances whichever encoding wins.
        self.commit(page_idx, bytes);
        match slot {
            // First observation of this page: nothing to diff against.
            None => PageDelta::Raw { page_idx, bytes },
            Some(previous) => {
                let xor_buf: [u8; PAGE_SIZE] = xor_arrays(&previous, &bytes);
                let runs: Vec<RunLiteral> = rle_encode(&xor_buf);
                proof {
                    lemma_encoding_is_bounded(runs@);
                }
                let rle_size: usize = encoded_runs_len(&runs);
                if rle_size < PAGE_SIZE {
                    PageDelta::Xor { page_idx, runs }
                } else {
                    assert(is_rle_of(runs@, xor_pages(previous@, current@)));
                    PageDelta::Raw { page_idx, bytes }
                }
            },
        }
    }

    /// Standby-side: reconstruct the new page content by applying a delta
    /// against the standby's own copy of the same page.
    pub fn apply(&mut self, delta: &PageDelta) -> (page: [u8; PAGE_SIZE])
        requires
            page_fits(delta.page()),
        ensures
            final(self)@ == apply_delta(old(self)@, *delta),
            final(self).slots() == slots_reaching(old(self).slots(), delta.page()),
            page@ == delta.patched(copy_or_zero(old(self)@, delta.page())),
    {
        let page_idx: u64 = delta.page_idx();
        let idx: usize = page_idx as usize;
        self.ensure_capacity(idx);
        let out: [u8; PAGE_SIZE] = match delta {
            PageDelta::Raw { bytes, .. } => *bytes,
            PageDelta::Xor { runs, .. } => {
                let previous: [u8; PAGE_SIZE] = match self.baseline[idx] {
                    Some(page) => page,
                    None => [0u8; PAGE_SIZE],
                };
                assert(previous@ =~= copy_or_zero(old(self)@, page_idx));
                let xor_buf: [u8; PAGE_SIZE] = rle_decode(runs);
                xor_arrays(&previous, &xor_buf)
            },
        };
        self.commit(page_idx, out);
        out
    }
}

/// A page-long slice as an array.
pub fn page_from_slice(bytes: &[u8]) -> (page: [u8; PAGE_SIZE])
    requires
        bytes@.len() == PAGE_SIZE,
    ensures
        page@ == bytes@,
{
    let mut page: [u8; PAGE_SIZE] = [0u8; PAGE_SIZE];
    let mut i: usize = 0;
    while i < PAGE_SIZE
        invariant
            i <= PAGE_SIZE,
            bytes@.len() == PAGE_SIZE,
            forall|j: int| 0 <= j < i ==> page@[j] == bytes@[j],
        decreases PAGE_SIZE - i,
    {
        page[i] = bytes[i];
        i = i + 1;
    }
    assert(page@ =~= bytes@);
    page
}

/// The bytewise XOR of two pages.
fn xor_arrays(a: &[u8; PAGE_SIZE], b: &[u8; PAGE_SIZE]) -> (out: [u8; PAGE_SIZE])
    ensures
        out@ == xor_pages(a@, b@),
{
    let mut out: [u8; PAGE_SIZE] = [0u8; PAGE_SIZE];
    let mut i: usize = 0;
    while i < PAGE_SIZE
        invariant
            i <= PAGE_SIZE,
            forall|j: int| 0 <= j < i ==> out@[j] == a@[j] ^ b@[j],
        decreases PAGE_SIZE - i,
    {
        out[i] = a[i] ^ b[i];
        i = i + 1;
    }
    assert(out@ =~= xor_pages(a@, b@));
    out
}

/// The run-length encoding of a page.
pub fn rle_encode(buf: &[u8; PAGE_SIZE]) -> (runs: Vec<RunLiteral>)
    ensures
        is_rle_of(runs@, buf@),
{
    let mut runs: Vec<RunLiteral> = Vec::new();
    let mut i: usize = 0;
    assert(buf@.take(0) =~= Seq::<u8>::empty());
    while i < PAGE_SIZE
        invariant
            i <= PAGE_SIZE,
            expand(runs@) == buf@.take(i as int),
            is_maximal(runs@),
            i < PAGE_SIZE && runs@.len() > 0 ==> runs@.last().literal@.len() > 0 && buf@[i as int]
                == 0,
        decreases PAGE_SIZE - i,
    {
        let ghost before = runs@;
        let run_start: usize = i;
        while i < PAGE_SIZE && buf[i] == 0
            invariant
                run_start <= i <= PAGE_SIZE,
                forall|j: int| run_start <= j < i ==> buf@[j] == 0,
            decreases PAGE_SIZE - i,
        {
            i = i + 1;
        }
        let zero_run: u32 = (i - run_start) as u32;

        let lit_start: usize = i;
        while i < PAGE_SIZE && buf[i] != 0
            invariant
                lit_start <= i <= PAGE_SIZE,
                forall|j: int| lit_start <= j < i ==> buf@[j] != 0,
            decreases PAGE_SIZE - i,
        {
            i = i + 1;
        }
        let literal: Vec<u8> = vstd::slice::slice_to_vec(
            vstd::slice::slice_subrange(buf.as_slice(), lit_start, i),
        );
        let ghost run = RunLiteral { zero_run, literal };
        if zero_run > 0 || literal.len() > 0 {
            runs.push(RunLiteral { zero_run, literal });
        }
        proof {
            assert(runs@.drop_last() =~= before);
            assert(run.bytes() =~= buf@.subrange(run_start as int, i as int));
            assert(buf@.take(i as int) =~= buf@.take(run_start as int) + run.bytes());
            assert forall|k: int|
                #![trigger runs@[k]]
                0 <= k < runs@.len() implies {
                &&& forall|j: int|
                    0 <= j < runs@[k].literal@.len() ==> #[trigger] runs@[k].literal@[j] != 0
                &&& k > 0 ==> runs@[k].zero_run > 0
                &&& k < runs@.len() - 1 ==> runs@[k].literal@.len() > 0
                &&& runs@[k].zero_run > 0 || runs@[k].literal@.len() > 0
            } by {
                if k < before.len() {
                    assert(runs@[k] == before[k]);
                }
            }
        }
    }
    assert(buf@.take(i as int) =~= buf@);
    runs
}

/// The page that a list of records stands for. A stream that is not exactly a
/// page long is cut, or padded with zeros.
pub fn rle_decode(runs: &Vec<RunLiteral>) -> (out: [u8; PAGE_SIZE])
    ensures
        out@ == page_of_stream(expand(runs@)),
{
    let mut out: [u8; PAGE_SIZE] = [0u8; PAGE_SIZE];
    let mut pos: usize = 0;
    let mut k: usize = 0;
    while k < runs.len()
        invariant
            k <= runs@.len(),
            pos <= PAGE_SIZE,
            pos == (if expand(runs@.take(k as int)).len() < PAGE_SIZE {
                expand(runs@.take(k as int)).len() as int
            } else {
                PAGE_SIZE as int
            }),
            forall|i: int|
                0 <= i < PAGE_SIZE ==> #[trigger] out@[i] == page_of_stream(
                    expand(runs@.take(k as int)),
                )[i],
        decreases runs@.len() - k,
    {
        let ghost before = expand(runs@.take(k as int));
        let ghost after = expand(runs@.take(k + 1));
        let run: &RunLiteral = &runs[k];
        proof {
            assert(runs@.take(k + 1).drop_last() =~= runs@.take(k as int));
            assert(after == before + run.bytes());
        }
        let lit_start: usize = pos.saturating_add(run.zero_run as usize);
        let mut j: usize = 0;
        while j < run.literal.len() && lit_start < PAGE_SIZE && j < PAGE_SIZE - lit_start
            invariant
                j <= run.literal@.len(),
                lit_start < PAGE_SIZE ==> j <= PAGE_SIZE - lit_start,
                lit_start >= PAGE_SIZE ==> j == 0,
                lit_start < PAGE_SIZE ==> lit_start == before.len() + run.zero_run,
                after == before + run.bytes(),
                lit_start >= PAGE_SIZE ==> before.len() + run.zero_run >= PAGE_SIZE,
                forall|i: int|
                    0 <= i < PAGE_SIZE ==> #[trigger] out@[i] == (if i < lit_start + j {
                        page_of_stream(after)[i]
                    } else {
                        0u8
                    }),
            decreases run.literal@.len() - j,
        {
            assert(after[lit_start + j] == run.literal@[j as int]);
            out[lit_start + j] = run.literal[j];
            j = j + 1;
        }
        pos = if lit_start < PAGE_SIZE {
            lit_start + j
        } else {
            PAGE_SIZE
        };
        k = k + 1;
    }
    assert(runs@.take(k as int) =~= runs@);
    assert(out@ =~= page_of_stream(expand(runs@)));
    out
}

proof fn lemma_encoded_size_monotone(runs: Seq<RunLiteral>, k: int)
    requires
        0 <= k <= runs.len(),
    ensures
        encoded_size(runs.take(k)) <= encoded_size(runs),
    decreases runs.len() - k,
{
    if k < runs.len() {
        lemma_encoded_size_monotone(runs, k + 1);
        assert(runs.take(k + 1).drop_last() =~= runs.take(k));
    } else {
        assert(runs.take(k) =~= runs);
    }
}

/// An encoding takes at most eight bytes for each byte of its stream, besides
/// the literals.
proof fn lemma_encoding_is_bounded(runs: Seq<RunLiteral>)
    requires
        forall|k: int|
            0 <= k < runs.len() ==> (#[trigger] runs[k]).zero_run > 0 || runs[k].literal@.len() > 0,
    ensures
        encoded_size(runs) <= 9 * expand(runs).len(),
    decreases runs.len(),
{
    if runs.len() > 0 {
        assert forall|k: int| 0 <= k < runs.drop_last().len() implies (
        #[trigger] runs.drop_last()[k]).zero_run > 0 || runs.drop_last()[k].literal@.len() > 0 by {
            assert(runs.drop_last()[k] == runs[k]);
        }
        lemma_encoding_is_bounded(runs.drop_last());
        assert(runs.last() == runs[runs.len() - 1]);
    }
}

/// The last byte of a stream of maximal records is the last byte of the last
/// literal, where that literal is not empty.
proof fn lemma_stream_ends_in_literal(runs: Seq<RunLiteral>)
    requires
        runs.len() > 0,
    ensures
        ({
            let stream = expand(runs);
            let literal = runs.last().literal@;
            let zero_run = runs.last().zero_run as int;
            let tail = stream.len() - literal.len();
            &&& stream.len() >= literal.len() + zero_run
            &&& forall|j: int| 0 <= j < literal.len() ==> stream[tail + j] == #[trigger] literal[j]
            &&& forall|i: int| tail - zero_run <= i < tail ==> #[trigger] stream[i] == 0
            &&& stream.take(tail - zero_run) == expand(runs.drop_last())
        }),
{
    let stream = expand(runs);
    let literal = runs.last().literal@;
    let zero_run = runs.last().zero_run as int;
    let head = expand(runs.drop_last());
    assert(stream == head + (zeros(zero_run as nat) + literal));
    assert(stream.take(head.len() as int) =~= head);
}

proof fn lemma_drop_last_keeps_maximal(runs: Seq<RunLiteral>)
    requires
        is_maximal(runs),
        runs.len() > 0,
    ensures
        is_maximal(runs.drop_last()),
{
    let shorter = runs.drop_last();
    assert forall|k: int|
        #![trigger shorter[k]]
        0 <= k < shorter.len() implies {
        &&& forall|j: int|
            0 <= j < shorter[k].literal@.len() ==> #[trigger] shorter[k].literal@[j] != 0
        &&& k > 0 ==> shorter[k].zero_run > 0
        &&& k < shorter.len() - 1 ==> shorter[k].literal@.len() > 0
        &&& shorter[k].zero_run > 0 || shorter[k].literal@.len() > 0
    } by {
        assert(shorter[k] == runs[k]);
    }
}

/// In two encodings of one stream, the last literal of the first is no longer
/// than that of the second.
proof fn lemma_last_literal_is_longest(a: Seq<RunLiteral>, b: Seq<RunLiteral>)
    requires
        is_maximal(a),
        is_maximal(b),
        a.len() > 0,
        b.len() > 0,
        expand(a) == expand(b),
    ensures
        a.last().literal@.len() <= b.last().literal@.len(),
{
    lemma_stream_ends_in_literal(a);
    lemma_stream_ends_in_literal(b);
    let stream = expand(a);
    let la = a.last().literal@;
    let lb = b.last().literal@;
    assert(a.last() == a[a.len() - 1]);
    assert(b.last() == b[b.len() - 1]);
    if lb.len() < la.len() {
        let i = stream.len() - lb.len() - 1;
        let j = i - (stream.len() - la.len());
        assert(stream[i] == la[j]);
        assert(a[a.len() - 1].literal@[j] != 0);
        if b.last().zero_run == 0 {
            assert(b.len() == 1);
            assert(expand(b.drop_last()) =~= Seq::<u8>::empty());
        }
    }
}

/// In two encodings of one stream with last literals of one length, the last
/// zero run of the first is no longer than that of the second.
proof fn lemma_last_zero_run_is_longest(a: Seq<RunLiteral>, b: Seq<RunLiteral>)
    requires
        is_maximal(a),
        is_maximal(b),
        a.len() > 0,
        b.len() > 0,
        expand(a) == expand(b),
        a.last().literal@.len() == b.last().literal@.len(),
    ensures
        a.last().zero_run <= b.last().zero_run,
{
    lemma_stream_ends_in_literal(a);
    lemma_stream_ends_in_literal(b);
    let stream = expand(a);
    let tail = stream.len() - b.last().literal@.len();
    let rest = b.drop_last();
    if b.last().zero_run < a.last().zero_run {
        let i = tail - b.last().zero_run - 1;
        assert(stream[i] == 0);
        assert(stream.take(tail - b.last().zero_run)[i] == stream[i]);
        assert(expand(rest)[i] == 0);
        if rest.len() == 0 {
            assert(expand(rest) =~= Seq::<u8>::empty());
        } else {
            lemma_stream_ends_in_literal(rest);
            let last = rest.last().literal@;
            assert(rest.last() == b[b.len() - 2]);
            assert(expand(rest)[i] == last[last.len() - 1]);
            assert(b[b.len() - 2].literal@[last.len() - 1] != 0);
        }
    }
}

/// A stream has one run-length encoding: two lists of maximal records that
/// stand for the same bytes hold the same records.
pub proof fn law_encoding_is_unique(a: Seq<RunLiteral>, b: Seq<RunLiteral>, stream: Seq<u8>)
    requires
        is_rle_of(a, stream),
        is_rle_of(b, stream),
    ensures
        a.len() == b.len(),
        forall|k: int|
            #![trigger a[k], b[k]]
            0 <= k < a.len() ==> a[k].zero_run == b[k].zero_run && a[k].literal@ == b[k].literal@,
        encoded_size(a) == encoded_size(b),
    decreases a.len(),
{
    if a.len() == 0 || b.len() == 0 {
        if a.len() > 0 {
            lemma_stream_ends_in_literal(a);
            assert(a.last() == a[a.len() - 1]);
        }
        if b.len() > 0 {
            lemma_stream_ends_in_literal(b);
            assert(b.last() == b[b.len() - 1]);
        }
    } else {
        lemma_last_literal_is_longest(a, b);
        lemma_last_literal_is_longest(b, a);
        lemma_last_zero_run_is_longest(a, b);
        lemma_last_zero_run_is_longest(b, a);
        lemma_stream_ends_in_literal(a);
        lemma_stream_ends_in_literal(b);
        let la = a.last().literal@;
        let lb = b.last().literal@;
        assert(la =~= lb) by {
            let tail = stream.len() - la.len();
            assert forall|j: int| 0 <= j < la.len() implies la[j] == lb[j] by {
                assert(stream[tail + j] == la[j]);
                assert(stream[tail + j] == lb[j]);
            }
        }
        lemma_drop_last_keeps_maximal(a);
        lemma_drop_last_keeps_maximal(b);
        law_encoding_is_unique(a.drop_last(), b.drop_last(), expand(a.drop_last()));
        assert forall|k: int|
            #![trigger a[k], b[k]]
            0 <= k < a.len() implies a[k].zero_run == b[k].zero_run && a[k].literal@
            == b[k].literal@ by {
            if k < a.len() - 1 {
                assert(a.drop_last()[k] == a[k]);
                assert(b.drop_last()[k] == b[k]);
            }
        }
    }
}

/// Decoding undoes encoding: the records of a page's encoding stand for that
/// page.
pub proof fn law_decode_undoes_encode(runs: Seq<RunLiteral>, page: Seq<u8>)
    requires
        page.len() == PAGE_SIZE,
        is_rle_of(runs, page),
    ensures
        page_of_stream(expand(runs)) == page,
{
    assert(page_of_stream(expand(runs)) =~= page);
}

/// A delta carries over what it was made from: against the copy that it was
/// diffed from, it gives back the page that it was diffed for.
pub proof fn law_patch_undoes_diff(
    copies: Map<u64, Seq<u8>>,
    page_idx: u64,
    current: Seq<u8>,
    delta: PageDelta,
)
    requires
        current.len() == PAGE_SIZE,
        delta.is_diff(copy_of(copies, page_idx), page_idx, current),
    ensures
        delta.patched(copy_or_zero(copies, page_idx)) == current,
        apply_delta(copies, delta) == copies.insert(page_idx, current),
{
    match delta {
        PageDelta::Raw { .. } => {},
        PageDelta::Xor { runs, .. } => {
            let previous = copies[page_idx];
            let xored = xor_pages(previous, current);
            law_decode_undoes_encode(runs@, xored);
            assert forall|i: int| 0 <= i < PAGE_SIZE implies previous[i] ^ xored[i]
                == current[i] by {
                let p = previous[i];
                let c = current[i];
                assert(p ^ (p ^ c) == c) by (bit_vector);
            }
            assert(delta.patched(previous) =~= current);
        },
    }
}

/// Which encoding a delta has is settled by the two contents: the encoded XOR
/// is sent exactly where there is a copy and the XOR is not dense.
pub proof fn law_encoding_choice(
    copy: Option<Seq<u8>>,
    page_idx: u64,
    current: Seq<u8>,
    delta: PageDelta,
)
    requires
        delta.is_diff(copy, page_idx, current),
    ensures
        delta is Xor <==> copy is Some && !is_dense(xor_pages(copy->Some_0, current)),
{
    match delta {
        PageDelta::Raw { .. } => {},
        PageDelta::Xor { runs, .. } => {
            let xored = xor_pages(copy->Some_0, current);
            if is_dense(xored) {
                let other = choose|other: Seq<RunLiteral>| #[trigger]
                    is_rle_of(other, xored) && encoded_size(other) >= PAGE_SIZE;
                law_encoding_is_unique(runs@, other, xored);
            }
        },
    }
}

/// Commits of other pages leave the copy of a page alone.
proof fn lemma_other_commits_keep_copy(
    copies: Map<u64, Seq<u8>>,
    page_idx: u64,
    others: Seq<(u64, Seq<u8>)>,
)
    requires
        forall|k: int| 0 <= k < others.len() ==> (#[trigger] others[k]).0 != page_idx,
    ensures
        copy_of(commit_all(copies, others), page_idx) == copy_of(copies, page_idx),
    decreases others.len(),
{
    if others.len() > 0 {
        let rest = others.drop_last();
        assert(others[others.len() - 1] == others.last());
        assert forall|k: int| 0 <= k < rest.len() implies (#[trigger] rest[k]).0 != page_idx by {
            assert(others[k] == rest[k]);
        }
        lemma_other_commits_keep_copy(copies, page_idx, rest);
    }
}

/// The encoding of a page of zeros is a single record without a literal.
proof fn lemma_zero_page_encoding(runs: Seq<RunLiteral>)
    requires
        is_rle_of(runs, zero_page()),
    ensures
        encoded_size(runs) == 8,
{
    assert(expand(runs).len() == PAGE_SIZE);
    let last = runs.last();
    let rest = runs.drop_last();
    assert(runs[runs.len() - 1] == last);
    if last.literal@.len() > 0 {
        let at = expand(rest).len() + last.zero_run;
        assert(expand(runs)[at as int] == last.literal@[0]);
    }
    if rest.len() > 0 {
        let before = rest.last();
        assert(runs[rest.len() - 1] == before);
        let at = expand(rest.drop_last()).len() + before.zero_run;
        assert(expand(rest)[at as int] == before.literal@[0]);
        assert(expand(runs)[at as int] == before.literal@[0]);
    }
    assert(encoded_size(rest) == 0);
}

/// Diffing a page against the content that was last committed for it, by a
/// diff or by an applied delta, gives a single record of eight bytes, whatever
/// was done to other pages since.
pub proof fn law_unchanged_page_takes_eight_bytes(
    copies: Map<u64, Seq<u8>>,
    page_idx: u64,
    page: Seq<u8>,
    others: Seq<(u64, Seq<u8>)>,
    delta: PageDelta,
)
    requires
        page.len() == PAGE_SIZE,
        forall|k: int| 0 <= k < others.len() ==> (#[trigger] others[k]).0 != page_idx,
        delta.is_diff(
            copy_of(commit_all(copies.insert(page_idx, page), others), page_idx),
            page_idx,
            page,
        ),
    ensures
        delta is Xor,
        delta.page() == page_idx,
        delta.wire_len() == 8,
{
    lemma_other_commits_keep_copy(copies.insert(page_idx, page), page_idx, others);
    assert(xor_pages(page, page) =~= zero_page()) by {
        assert forall|i: int| 0 <= i < PAGE_SIZE implies page[i] ^ page[i] == 0 by {
            let b = page[i];
            assert(b ^ b == 0) by (bit_vector);
        }
    }
    match delta {
        PageDelta::Raw { .. } => {
            let runs = choose|runs: Seq<RunLiteral>| #[trigger]
                is_rle_of(runs, zero_page()) && encoded_size(runs) >= PAGE_SIZE;
            lemma_zero_page_encoding(runs);
        },
        PageDelta::Xor { runs, .. } => {
            lemma_zero_page_encoding(runs@);
        },
    }
}

/// Zero bytes are zero, and as many as asked for.
pub proof fn law_zeros_are_zero(n: nat, i: int)
    requires
        0 <= i < n,
    ensures
        zeros(n).len() == n,
        zeros(n)[i] == 0,
        zero_page().len() == PAGE_SIZE,
{
}

/// The XOR of two pages is taken byte by byte.
pub proof fn law_xor_is_bytewise(a: Seq<u8>, b: Seq<u8>, i: int)
    requires
        0 <= i < PAGE_SIZE,
    ensures
        xor_pages(a, b).len() == PAGE_SIZE,
        xor_pages(a, b)[i] == a[i] ^ b[i],
{
}

/// A record stands for its zero run followed by its literal, and takes eight
/// bytes more than the literal.
pub proof fn law_record_is_zeros_then_literal(record: RunLiteral, i: int)
    requires
        0 <= i < record.zero_run + record.literal@.len(),
    ensures
        expand(seq![record]).len() == record.zero_run + record.literal@.len(),
        expand(seq![record])[i] == (if i < record.zero_run {
            0u8
        } else {
            record.literal@[i - record.zero_run]
        }),
        encoded_size(seq![record]) == 8 + record.literal@.len(),
{
    let runs = seq![record];
    assert(runs.drop_last() =~= Seq::<RunLiteral>::empty());
    assert(expand(runs.drop_last()) =~= Seq::<u8>::empty());
    assert(expand(runs) =~= record.bytes());
    assert(encoded_size(runs.drop_last()) == 0);
}

/// Records that follow one another stand for bytes that follow one another,
/// and their sizes add up. No record stands for nothing and takes nothing.
pub proof fn law_records_concatenate(a: Seq<RunLiteral>, b: Seq<RunLiteral>)
    ensures
        expand(a + b) == expand(a) + expand(b),
        encoded_size(a + b) == encoded_size(a) + encoded_size(b),
        expand(Seq::empty()).len() == 0,
        encoded_size(Seq::empty()) == 0,
    decreases b.len(),
{
    if b.len() == 0 {
        assert(a + b =~= a);
        assert(expand(a) + expand(b) =~= expand(a));
    } else {
        assert((a + b).drop_last() =~= a + b.drop_last());
        law_records_concatenate(a, b.drop_last());
        assert((expand(a) + expand(b.drop_last())) + b.last().bytes() =~= expand(a) + expand(b));
    }
}

/// In an encoding, literals hold no zero, every record but the first starts
/// with a zero run, every record but the last ends with a literal, none is
/// empty, and together they stand for the stream.
pub proof fn law_encoding_has_no_slack(runs: Seq<RunLiteral>, stream: Seq<u8>, k: int)
    requires
        is_rle_of(runs, stream),
        0 <= k < runs.len(),
    ensures
        expand(runs) == stream,
        forall|j: int| 0 <= j < runs[k].literal@.len() ==> #[trigger] runs[k].literal@[j] != 0,
        k > 0 ==> runs[k].zero_run > 0,
        k < runs.len() - 1 ==> runs[k].literal@.len() > 0,
        runs[k].zero_run > 0 || runs[k].literal@.len() > 0,
{
}

/// Every list of records without slack is an encoding of what it stands for.
pub proof fn law_no_slack_is_an_encoding(runs: Seq<RunLiteral>)
    requires
        forall|k: int, j: int|
            0 <= k < runs.len() && 0 <= j < runs[k].literal@.len()
                ==> #[trigger] runs[k].literal@[j] != 0,
        forall|k: int| 0 < k < runs.len() ==> (#[trigger] runs[k]).zero_run > 0,
        forall|k: int| 0 <= k < runs.len() - 1 ==> (#[trigger] runs[k]).literal@.len() > 0,
        runs.len() == 1 ==> runs[0].zero_run > 0 || runs[0].literal@.len() > 0,
    ensures
        is_rle_of(runs, expand(runs)),
{
}

/// What a delta gives is a whole page: the bytes that it carries, or the
/// previous copy with the stream of its records XORed in from the start, as
/// far as it goes.
pub proof fn law_patch_is_bytewise(delta: PageDelta, previous: Seq<u8>, i: int)
    requires
        0 <= i < PAGE_SIZE,
    ensures
        delta.patched(previous).len() == PAGE_SIZE,
        delta is Raw ==> delta.patched(previous)[i] == delta->bytes[i],
        delta is Xor && i < expand(delta->runs@).len() ==> delta.patched(previous)[i]
            == previous[i] ^ expand(delta->runs@)[i],
        delta is Xor && i >= expand(delta->runs@).len() ==> delta.patched(previous)[i]
            == previous[i],
        delta is Raw ==> delta.page() == delta->Raw_page_idx && delta.wire_len() == PAGE_SIZE,
        delta is Xor ==> delta.page() == delta->Xor_page_idx && delta.wire_len() == encoded_size(
            delta->runs@,
        ),
{
    let p = previous[i];
    assert(p ^ 0 == p) by (bit_vector);
}

/// A page without a copy is sent whole. One with a copy is sent as the encoded
/// XOR exactly if that is smaller than a page, and whole otherwise; a tie goes
/// to the page. Either way it takes the smaller of the two sizes.
pub proof fn law_smaller_encoding_is_sent(
    delta: PageDelta,
    copy: Option<Seq<u8>>,
    page_idx: u64,
    current: Seq<u8>,
    runs: Seq<RunLiteral>,
    stream: Seq<u8>,
)
    requires
        delta.is_diff(copy, page_idx, current),
        is_rle_of(runs, stream),
        stream.len() == PAGE_SIZE,
        copy is Some ==> forall|i: int|
            0 <= i < PAGE_SIZE ==> #[trigger] stream[i] == copy->Some_0[i] ^ current[i],
    ensures
        delta.page() == page_idx,
        copy is None ==> delta is Raw,
        copy is Some ==> (delta is Xor <==> encoded_size(runs) < PAGE_SIZE),
        copy is Some && delta is Xor ==> delta.wire_len() == encoded_size(runs),
        delta is Raw ==> delta.wire_len() == PAGE_SIZE && delta->bytes@ == current,
{
    if copy is Some {
        let xored = xor_pages(copy->Some_0, current);
        assert(stream =~= xored);
        match delta {
            PageDelta::Raw { .. } => {
                let other = choose|other: Seq<RunLiteral>| #[trigger]
                    is_rle_of(other, xored) && encoded_size(other) >= PAGE_SIZE;
                law_encoding_is_unique(runs, other, xored);
            },
            PageDelta::Xor { runs: sent, .. } => {
                law_encoding_is_unique(runs, sent@, xored);
            },
        }
    }
}

/// Applying a delta puts what it gives, against the copy there or against zero
/// bytes, in place of the copy of its page, and touches no other.
pub proof fn law_apply_replaces_one_copy(
    copies: Map<u64, Seq<u8>>,
    delta: PageDelta,
    other: u64,
)
    ensures
        apply_delta(copies, delta).contains_key(delta.page()),
        copies.contains_key(delta.page()) ==> apply_delta(copies, delta)[delta.page()]
            == delta.patched(copies[delta.page()]),
        !copies.contains_key(delta.page()) ==> apply_delta(copies, delta)[delta.page()]
            == delta.patched(Seq::new(PAGE_SIZE as nat, |i: int| 0u8)),
        other != delta.page() ==> apply_delta(copies, delta).contains_key(other)
            == copies.contains_key(other),
        other != delta.page() && copies.contains_key(other) ==> apply_delta(copies, delta)[other]
            == copies[other],
        copies.contains_key(other) ==> copy_of(copies, other) == Some(copies[other]),
        !copies.contains_key(other) ==> copy_of(copies, other) is None,
{
    assert(zero_page() =~= Seq::new(PAGE_SIZE as nat, |i: int| 0u8));
}

/// A table that was made to reach a page reaches it, has not shrunk, and has
/// grown only if it had to. Every page that an allocation can hold is reached.
pub proof fn law_table_grows_as_needed(slots: nat, page_idx: u64)
    ensures
        slots_reaching(slots, page_idx) > page_idx,
        slots_reaching(slots, page_idx) >= slots,
        slots_reaching(slots, page_idx) == slots || slots_reaching(slots, page_idx) == page_idx
            + 1,
        (page_idx + 1) * (PAGE_SIZE + 1) <= isize::MAX ==> page_fits(page_idx),
{
}

/// A stream fills a page from the start; what it is short of is zero, and what
/// it has in excess is cut off.
pub proof fn law_stream_fills_page(stream: Seq<u8>, i: int)
    requires
        0 <= i < PAGE_SIZE,
    ensures
        page_of_stream(stream).len() == PAGE_SIZE,
        i < stream.len() ==> page_of_stream(stream)[i] == stream[i],
        i >= stream.len() ==> page_of_stream(stream)[i] == 0,
{
}

} // verus!
