//! Dirty-page tracking, shared by the checkpoint pipeline (only dirty pages
//! are rehashed) and the replication pipeline (only dirty pages are
//! streamed).

use vstd::prelude::*;

verus! {

/// Whether the bit of page `page_idx` is set in the bitmap `bits`.
pub open spec fn bit_is_set(bits: Seq<u64>, page_idx: u64) -> bool {
    (page_idx / 64) < bits.len() && bits[(page_idx / 64) as int] & (1u64 << (page_idx % 64)) != 0
}

/// The pages whose bit is set in the bitmap `bits`.
pub open spec fn pages_of(bits: Seq<u64>) -> Set<u64> {
    Set::new(|page_idx: u64| bit_is_set(bits, page_idx))
}

/// `pages` lists the members of `set` in ascending order, each once.
pub open spec fn lists_ascending(pages: Seq<u64>, set: Set<u64>) -> bool {
    &&& forall|i: int, j: int| 0 <= i < j < pages.len() ==> pages[i] < pages[j]
    &&& forall|page_idx: u64| #[trigger] pages.contains(page_idx) <==> set.contains(page_idx)
}

/// A capacity-bounded, page-granularity dirty bitmap. Backed by a `Vec<u64>`
/// bit set rather than a hash set: occupancy is typically dense enough that a
/// bitmap is both smaller and faster to scan.
///
/// The view is the set of dirty page indices.
pub struct DirtyPageSet {
    bits: Vec<u64>,
    capacity_pages: u64,
    /// Cached size of the set, for a constant-time `len`.
    count: u64,
}

impl View for DirtyPageSet {
    type V = Set<u64>;

    closed spec fn view(&self) -> Set<u64> {
        pages_of(self.bits@)
    }
}

impl DirtyPageSet {
    /// The bitmap has a bit for every tracked page, only tracked pages are
    /// dirty, and the cached count is the size of the set.
    #[verifier::type_invariant]
    spec fn inv(self) -> bool {
        &&& self.capacity_pages <= self.bits@.len() * 64 <= u64::MAX
        &&& pages_of(self.bits@).finite()
        &&& self.count == pages_of(self.bits@).len()
        &&& forall|page_idx: u64| #[trigger]
            bit_is_set(self.bits@, page_idx) ==> page_idx < self.capacity_pages
    }

    /// The number of pages tracked.
    pub closed spec fn capacity(&self) -> u64 {
        self.capacity_pages
    }

    /// An empty set that tracks the pages below `capacity_pages`.
    pub fn new(capacity_pages: u64) -> (set: Self)
        requires
            capacity_pages + 63 <= usize::MAX,
        ensures
            set@ == Set::<u64>::empty(),
            set.capacity() == capacity_pages,
    {
        let words: usize = (capacity_pages as usize + 63) / 64;
        let words: usize = if words == 0 {
            1
        } else {
            words
        };
        let bits: Vec<u64> = vec![0u64; words];
        proof {
            lemma_zero_words_are_empty(bits@);
        }
        DirtyPageSet { bits, capacity_pages, count: 0 }
    }

    /// A set that tracks nothing and holds no allocation.
    pub(crate) fn vacant() -> (set: Self)
        ensures
            set@ == Set::<u64>::empty(),
            set.capacity() == 0,
    {
        let bits: Vec<u64> = Vec::new();
        proof {
            lemma_zero_words_are_empty(bits@);
        }
        DirtyPageSet { bits, capacity_pages: 0, count: 0 }
    }

    /// Moves the set out, leaving a vacant one.
    fn take(&mut self) -> (set: Self)
        ensures
            set == *old(self),
    {
        let mut set = DirtyPageSet::vacant();
        std::mem::swap(self, &mut set);
        set
    }

    /// Adds a page to the set.
    pub fn mark(&mut self, page_idx: u64)
        requires
            page_idx < old(self).capacity(),
        ensures
            final(self)@ == old(self)@.insert(page_idx),
            final(self).capacity() == old(self).capacity(),
    {
        let set = self.take();
        proof {
            use_type_invariant(&set);
        }
        let ghost before = set.bits@;
        let DirtyPageSet { mut bits, capacity_pages, mut count } = set;
        assert(page_idx / 64 < bits.len());
        let word: usize = (page_idx / 64) as usize;
        let bit: u64 = page_idx % 64;
        let mask: u64 = 1u64 << bit;
        if bits[word] & mask == 0 {
            let marked: u64 = bits[word] | mask;
            bits.set(word, marked);
            proof {
                lemma_set_bit(before, page_idx);
                lemma_bounded_set(pages_of(before).insert(page_idx), capacity_pages);
            }
            count = count + 1;
        }
        proof {
            assert(pages_of(bits@) =~= pages_of(before).insert(page_idx));
            assert forall|p: u64| #[trigger] bit_is_set(bits@, p) implies p < capacity_pages by {
                assert(pages_of(bits@).contains(p));
            }
        }
        *self = DirtyPageSet { bits, capacity_pages, count };
    }

    /// Whether a page is in the set. A page that is not tracked is not.
    pub fn is_dirty(&self, page_idx: u64) -> (dirty: bool)
        ensures
            dirty == self@.contains(page_idx),
    {
        let word: u64 = page_idx / 64;
        let bit: u64 = page_idx % 64;
        if word < self.bits.len() as u64 {
            self.bits[word as usize] & (1u64 << bit) != 0
        } else {
            false
        }
    }

    /// The dirty page indices, in ascending order.
    pub fn iter_dirty(&self) -> (pages: Vec<u64>)
        ensures
            lists_ascending(pages@, self@),
            pages@.len() == self@.len(),
            forall|page_idx: u64| #[trigger]
                self@.contains(page_idx) ==> page_idx < self.capacity(),
    {
        proof {
            use_type_invariant(self);
        }
        let mut pages: Vec<u64> = Vec::new();
        let mut word_idx: usize = 0;
        while word_idx < self.bits.len()
            invariant
                word_idx <= self.bits@.len(),
                self.bits@.len() * 64 <= u64::MAX,
                lists_below(pages@, self.bits@, word_idx * 64),
            decreases self.bits@.len() - word_idx,
        {
            let word: u64 = self.bits[word_idx];
            let base: u64 = word_idx as u64 * 64;
            let mut bit: u64 = 0;
            while bit < 64
                invariant
                    bit <= 64,
                    word_idx < self.bits@.len(),
                    self.bits@.len() * 64 <= u64::MAX,
                    word == self.bits@[word_idx as int],
                    base == word_idx * 64,
                    lists_below(pages@, self.bits@, base + bit),
                decreases 64 - bit,
            {
                let ghost listed = pages@;
                let page_idx: u64 = base + bit;
                assert(page_idx / 64 == word_idx && page_idx % 64 == bit);
                if word & (1u64 << bit) != 0 {
                    pages.push(page_idx);
                    assert(bit_is_set(self.bits@, page_idx));
                    assert(pages@[listed.len() as int] == page_idx);
                    assert forall|p: u64| #[trigger] pages@.contains(p) <==> (p < base + bit + 1
                        && bit_is_set(self.bits@, p)) by {
                        if p < base + bit && bit_is_set(self.bits@, p) {
                            assert(listed.contains(p));
                            let i = choose|i: int| 0 <= i < listed.len() && listed[i] == p;
                            assert(pages@[i] == p);
                        }
                        if pages@.contains(p) && p != page_idx {
                            let i = choose|i: int| 0 <= i < pages@.len() && pages@[i] == p;
                            assert(listed[i] == p);
                            assert(listed.contains(p));
                        }
                    }
                    assert forall|i: int| 0 <= i < listed.len() implies #[trigger] listed[i]
                        < page_idx by {
                        assert(listed.contains(listed[i]));
                    }
                } else {
                    assert(!bit_is_set(self.bits@, page_idx));
                }
                bit = bit + 1;
            }
            word_idx = word_idx + 1;
        }
        proof {
            assert forall|p: u64| #[trigger] pages@.contains(p) <==> self@.contains(p) by {
                if bit_is_set(self.bits@, p) {
                    assert(p < self.bits@.len() * 64);
                }
            }
            law_listing_is_complete_and_unique(pages@, pages@, self@);
        }
        pages
    }

    /// The number of dirty pages.
    pub fn len(&self) -> (count: u64)
        ensures
            count == self@.len(),
            self@.finite(),
    {
        proof {
            use_type_invariant(self);
        }
        self.count
    }

    /// Whether no page is dirty.
    pub fn is_empty(&self) -> (empty: bool)
        ensures
            empty == (self@ == Set::<u64>::empty()),
    {
        proof {
            use_type_invariant(self);
            if self@.len() == 0 {
                self@.lemma_len0_is_empty();
            }
        }
        self.count == 0
    }

    /// Empties the set, once a checkpoint or replication flush has consumed
    /// every dirty page. Clearing earlier would silently drop mutations from
    /// the checkpoint and from the standby.
    pub fn clear_all(&mut self)
        ensures
            final(self)@ == Set::<u64>::empty(),
            final(self).capacity() == old(self).capacity(),
    {
        let set = self.take();
        proof {
            use_type_invariant(&set);
        }
        let DirtyPageSet { mut bits, capacity_pages, count: _ } = set;
        let ghost words = bits@.len();
        let mut i: usize = 0;
        while i < bits.len()
            invariant
                i <= bits@.len(),
                bits@.len() == words,
                forall|j: int| 0 <= j < i ==> bits@[j] == 0,
            decreases bits@.len() - i,
        {
            bits.set(i, 0);
            i = i + 1;
        }
        proof {
            lemma_zero_words_are_empty(bits@);
        }
        *self = DirtyPageSet { bits, capacity_pages, count: 0 };
    }
}

/// `pages` lists the set bits below `limit` in ascending order.
spec fn lists_below(pages: Seq<u64>, bits: Seq<u64>, limit: int) -> bool {
    &&& forall|i: int, j: int| 0 <= i < j < pages.len() ==> pages[i] < pages[j]
    &&& forall|page_idx: u64| #[trigger]
        pages.contains(page_idx) <==> (page_idx < limit && bit_is_set(bits, page_idx))
}

proof fn lemma_zero_words_are_empty(bits: Seq<u64>)
    requires
        forall|i: int| 0 <= i < bits.len() ==> bits[i] == 0,
    ensures
        pages_of(bits) == Set::<u64>::empty(),
        forall|page_idx: u64| !(#[trigger] bit_is_set(bits, page_idx)),
{
    assert forall|page_idx: u64| !(#[trigger] bit_is_set(bits, page_idx)) by {
        let bit = page_idx % 64;
        assert(0u64 & (1u64 << bit) == 0) by (bit_vector);
    }
    assert(pages_of(bits) =~= Set::<u64>::empty());
}

/// Or-ing the mask of one page into its word sets that page's bit and no other.
proof fn lemma_set_bit(bits: Seq<u64>, page_idx: u64)
    requires
        page_idx / 64 < bits.len(),
        !bit_is_set(bits, page_idx),
    ensures
        ({
            let word = (page_idx / 64) as int;
            let marked = bits.update(word, bits[word] | (1u64 << (page_idx % 64)));
            pages_of(marked) == pages_of(bits).insert(page_idx)
        }),
{
    let word = (page_idx / 64) as int;
    let old_word = bits[word];
    let bit = page_idx % 64;
    let marked = bits.update(word, old_word | (1u64 << bit));
    assert forall|p: u64| pages_of(marked).contains(p) == pages_of(bits).insert(page_idx).contains(
        p,
    ) by {
        let other = p % 64;
        if p / 64 == page_idx / 64 {
            assert((old_word | (1u64 << bit)) & (1u64 << bit) != 0) by (bit_vector)
                requires
                    bit < 64,
            ;
            if other != bit {
                assert((old_word | (1u64 << bit)) & (1u64 << other) == old_word & (1u64 << other))
                    by (bit_vector)
                    requires
                        bit < 64,
                        other < 64,
                        bit != other,
                ;
            }
        }
    }
    assert(pages_of(marked) =~= pages_of(bits).insert(page_idx));
}

/// A set of page indices below `bound` has at most `bound` members.
proof fn lemma_bounded_set(set: Set<u64>, bound: u64)
    requires
        forall|page_idx: u64| set.contains(page_idx) ==> page_idx < bound,
    ensures
        set.finite(),
        set.len() <= bound,
{
    broadcast use vstd::set_lib::range_set_properties;
    let below = Set::<u64>::range(0, bound);
    assert(set.subset_of(below));
    vstd::set_lib::lemma_set_subset_finite(below, set);
    vstd::set_lib::lemma_len_subset(set, below);
}

/// Marking a page that is dirty already changes nothing.
pub proof fn law_mark_is_idempotent(set: Set<u64>, page_idx: u64)
    ensures
        set.insert(page_idx).insert(page_idx) == set.insert(page_idx),
{
    assert(set.insert(page_idx).insert(page_idx) =~= set.insert(page_idx));
}

/// The listing of a set is as long as the set is large, and there is only
/// one.
pub proof fn law_listing_is_complete_and_unique(a: Seq<u64>, b: Seq<u64>, set: Set<u64>)
    requires
        lists_ascending(a, set),
        lists_ascending(b, set),
    ensures
        set.finite(),
        a.len() == set.len(),
        a == b,
    decreases a.len(),
{
    assert(a.no_duplicates());
    a.unique_seq_to_set();
    assert(a.to_set() =~= set);
    if a.len() == 0 {
        if b.len() > 0 {
            assert(b.contains(b[0]));
            assert(a.contains(b[0]));
        }
        assert(a =~= b);
    } else {
        assert(a.contains(a.last()));
        assert(b.contains(a.last()));
        let n = choose|n: int| 0 <= n < b.len() && b[n] == a.last();
        assert(b.contains(b.last()));
        assert(a.contains(b.last()));
        let m = choose|m: int| 0 <= m < a.len() && a[m] == b.last();
        assert(a.last() == b.last());
        let rest = set.remove(a.last());
        assert forall|p: u64| #[trigger] a.drop_last().contains(p) <==> rest.contains(p) by {
            lemma_drop_last_contains(a, p);
            assert(a.contains(p) <==> set.contains(p));
        }
        assert forall|p: u64| #[trigger] b.drop_last().contains(p) <==> rest.contains(p) by {
            lemma_drop_last_contains(b, p);
            assert(b.contains(p) <==> set.contains(p));
        }
        law_listing_is_complete_and_unique(a.drop_last(), b.drop_last(), rest);
        assert(a =~= a.drop_last().push(a.last()));
        assert(b =~= b.drop_last().push(b.last()));
    }
}

/// All but the last of an ascending listing.
proof fn lemma_drop_last_contains(pages: Seq<u64>, page_idx: u64)
    requires
        pages.len() > 0,
        forall|i: int, j: int| 0 <= i < j < pages.len() ==> pages[i] < pages[j],
    ensures
        pages.drop_last().contains(page_idx) <==> pages.contains(page_idx) && page_idx
            != pages.last(),
{
    if pages.contains(page_idx) && page_idx != pages.last() {
        let i = choose|i: int| 0 <= i < pages.len() && pages[i] == page_idx;
        assert(pages.drop_last()[i] == page_idx);
    }
    if pages.drop_last().contains(page_idx) {
        let i = choose|i: int|
            0 <= i < pages.drop_last().len() && pages.drop_last()[i] == page_idx;
        assert(pages[i] == page_idx);
    }
}

/// A listing goes strictly up and holds the members of the set and nothing
/// else.
pub proof fn law_listing_goes_up(pages: Seq<u64>, set: Set<u64>)
    requires
        lists_ascending(pages, set),
    ensures
        forall|i: int, j: int| 0 <= i < j < pages.len() ==> pages[i] < pages[j],
        forall|i: int| 0 <= i < pages.len() ==> set.contains(#[trigger] pages[i]),
        forall|p: u64| #[trigger]
            set.contains(p) ==> exists|i: int| 0 <= i < pages.len() && pages[i] == p,
{
    assert forall|i: int| 0 <= i < pages.len() implies set.contains(#[trigger] pages[i]) by {
        assert(pages.contains(pages[i]));
    }
    assert forall|p: u64| #[trigger] set.contains(p) implies exists|i: int|
        0 <= i < pages.len() && pages[i] == p by {
        assert(pages.contains(p));
    }
}

} // verus!
