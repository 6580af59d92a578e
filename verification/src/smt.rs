//! Sparse Merkle tree over a cell's heap pages, and the chain of checkpoints
//! that its roots form.
//!
//! A leaf is the BLAKE3 hash of a page, a node the hash of its two children.
//! Only pages that were hashed at least once are held. Every other leaf counts
//! as that of an all-zero page, so that untouched subtrees collapse to a hash
//! known in advance.

use std::collections::HashMap;
use vstd::prelude::*;

use crate::delta::zero_page;
use crate::digest::{blake3_bytes, blake3_digest, collide, lemma_digest_len, Digest};
use crate::dirty::DirtyPageSet;
use crate::guarded_memory::{page_of, GuardedMemory};

verus! {

pub const PAGE_SIZE: usize = crate::guarded_memory::PAGE_SIZE;

/// Depth of the tree: the number of bits that index a leaf.
pub const TREE_DEPTH: usize = 32;

/// The number of leaves.
pub const LEAF_COUNT: u64 = 0x1_0000_0000;

/// What seeds the chain hash before the first checkpoint: the ASCII bytes of
/// `chronos-uvm-genesis`.
pub const GENESIS_SEED: [u8; 19] = [
    99,
    104,
    114,
    111,
    110,
    111,
    115,
    45,
    117,
    118,
    109,
    45,
    103,
    101,
    110,
    101,
    115,
    105,
    115,
];

/// The hash of an all-zero subtree of the given depth.
pub open spec fn default_hash(depth: nat) -> Seq<u8>
    decreases depth,
{
    if depth == 0 {
        blake3_bytes(zero_page())
    } else {
        let below = default_hash((depth - 1) as nat);
        blake3_bytes(below + below)
    }
}

/// The hash of leaf `idx`.
pub open spec fn leaf_hash_of(leaves: Map<u64, Seq<u8>>, idx: int) -> Seq<u8> {
    if 0 <= idx <= u64::MAX && leaves.contains_key(idx as u64) {
        leaves[idx as u64]
    } else {
        default_hash(0)
    }
}

/// The hash of node `idx` of the level `depth` above the leaves.
pub open spec fn node_hash(leaves: Map<u64, Seq<u8>>, depth: nat, idx: int) -> Seq<u8>
    decreases depth,
{
    if depth == 0 {
        leaf_hash_of(leaves, idx)
    } else {
        let below = (depth - 1) as nat;
        blake3_bytes(node_hash(leaves, below, 2 * idx) + node_hash(leaves, below, 2 * idx + 1))
    }
}

/// The root of the tree.
pub open spec fn merkle_root(leaves: Map<u64, Seq<u8>>) -> Seq<u8> {
    node_hash(leaves, TREE_DEPTH as nat, 0)
}

/// Every leaf that was hashed has its place in the tree.
pub open spec fn leaves_fit(leaves: Map<u64, Seq<u8>>) -> bool {
    forall|k: u64| #[trigger] leaves.contains_key(k) ==> k < LEAF_COUNT
}

/// The node above leaf `idx` on the level `depth` above the leaves.
pub open spec fn ancestor(idx: int, depth: nat) -> int
    decreases depth,
{
    if depth == 0 {
        idx
    } else {
        ancestor(idx, (depth - 1) as nat) / 2
    }
}

/// A leaf below the node was hashed.
pub open spec fn touched(leaves: Map<u64, Seq<u8>>, depth: nat, idx: int) -> bool {
    exists|k: u64| leaves.contains_key(k) && #[trigger] ancestor(k as int, depth) == idx
}

/// The digests of a level as their bytes.
pub open spec fn digests(level: Map<u64, Digest>) -> Map<u64, Seq<u8>> {
    level.map_values(|d: Digest| d@)
}

/// `level` holds exactly the touched nodes at `depth`, each with its hash.
spec fn is_level(leaves: Map<u64, Seq<u8>>, depth: nat, level: Map<u64, Digest>) -> bool {
    &&& forall|i: u64| #[trigger] level.contains_key(i) <==> touched(leaves, depth, i as int)
    &&& forall|i: u64| #[trigger]
        level.contains_key(i) ==> level[i]@ == node_hash(leaves, depth, i as int)
}

/// The hashes of the all-zero subtrees, from a leaf up to the root.
fn default_hashes() -> (hashes: Vec<Digest>)
    ensures
        hashes@.len() == TREE_DEPTH + 1,
        forall|d: int| 0 <= d <= TREE_DEPTH ==> (#[trigger] hashes@[d])@ == default_hash(d as nat),
{
    let zeros: [u8; PAGE_SIZE] = [0u8; PAGE_SIZE];
    assert(zeros@ =~= zero_page());
    let mut hashes: Vec<Digest> = Vec::new();
    hashes.push(Digest::of(&zeros));
    let mut d: usize = 1;
    while d <= TREE_DEPTH
        invariant
            1 <= d <= TREE_DEPTH + 1,
            hashes@.len() == d,
            forall|i: int| 0 <= i < d ==> (#[trigger] hashes@[i])@ == default_hash(i as nat),
        decreases TREE_DEPTH + 1 - d,
    {
        let prev = hashes[d - 1];
        hashes.push(Digest::of_pair(prev, prev));
        d += 1;
    }
    hashes
}

/// The hash of node `idx`, given the nodes of its level that are touched.
fn node_or_default(level: &HashMap<u64, Digest>, idx: u64, default_node: Digest) -> (hash: Digest)
    ensures
        hash == (if level@.contains_key(idx) {
            level@[idx]
        } else {
            default_node
        }),
{
    broadcast use vstd::std_specs::hash::group_hash_axioms;

    match level.get(&idx) {
        Some(hash) => *hash,
        None => default_node,
    }
}

/// The level above `level`.
fn parent_level(
    level: &HashMap<u64, Digest>,
    default_child: Digest,
    Ghost(leaves): Ghost<Map<u64, Seq<u8>>>,
    Ghost(depth): Ghost<nat>,
) -> (next: HashMap<u64, Digest>)
    requires
        is_level(leaves, depth, level@),
        default_child@ == default_hash(depth),
    ensures
        is_level(leaves, depth + 1, next@),
{
    broadcast use vstd::std_specs::hash::group_hash_axioms;

    let mut next: HashMap<u64, Digest> = HashMap::new();
    for idx in it: level.keys()
        invariant
            is_level(leaves, depth, level@),
            default_child@ == default_hash(depth),
            it.seq().unref().to_set() == level@.dom(),
            forall|j: int|
                0 <= j < it.index() ==> next@.contains_key((#[trigger] *it.seq()[j]) / 2),
            forall|p: u64| #[trigger]
                next@.contains_key(p) ==> touched(leaves, depth + 1, p as int),
            forall|p: u64| #[trigger]
                next@.contains_key(p) ==> next@[p]@ == node_hash(leaves, depth + 1, p as int),
    {
        let parent: u64 = *idx / 2;
        if !next.contains_key(&parent) {
            let left_idx: u64 = parent * 2;
            let right_idx: u64 = left_idx + 1;
            let left = node_or_default(level, left_idx, default_child);
            let right = node_or_default(level, right_idx, default_child);
            let hash = Digest::of_pair(left, right);
            proof {
                assert(it.seq().unref()[it.index()] == *idx);
                assert(it.seq().unref().to_set().contains(*idx));
                assert(level@.contains_key(*idx));
                let k = choose|k: u64|
                    leaves.contains_key(k) && #[trigger] ancestor(k as int, depth) == *idx as int;
                assert(ancestor(k as int, depth + 1) == parent as int);
                if !level@.contains_key(left_idx) {
                    lemma_untouched_is_default(leaves, depth, left_idx as int);
                }
                if !level@.contains_key(right_idx) {
                    lemma_untouched_is_default(leaves, depth, right_idx as int);
                }
            }
            next.insert(parent, hash);
        }
    }
    proof {
        assert forall|p: u64| touched(
            leaves,
            depth + 1,
            p as int,
        ) implies #[trigger] next@.contains_key(p) by {
            let k = choose|k: u64|
                leaves.contains_key(k) && #[trigger] ancestor(k as int, depth + 1) == p as int;
            lemma_ancestor_bounds(k as int, depth);
            let i = ancestor(k as int, depth) as u64;
            assert(touched(leaves, depth, i as int));
            assert(level@.contains_key(i));
        }
    }
    next
}

/// A sparse Merkle tree keyed by page index. Only leaves that were hashed are
/// held, which keeps memory proportional to touched pages.
pub struct SparseMerkleTree {
    /// The leaves of pages that have been hashed at least once.
    leaves: HashMap<u64, Digest>,
    /// The hashes of the all-zero subtrees, by depth.
    defaults: Vec<Digest>,
}

impl View for SparseMerkleTree {
    type V = Map<u64, Seq<u8>>;

    closed spec fn view(&self) -> Map<u64, Seq<u8>> {
        digests(self.leaves@)
    }
}

impl SparseMerkleTree {
    #[verifier::type_invariant]
    spec fn inv(self) -> bool {
        &&& self.defaults@.len() == TREE_DEPTH + 1
        &&& forall|d: int|
            0 <= d <= TREE_DEPTH ==> (#[trigger] self.defaults@[d])@ == default_hash(d as nat)
    }

    /// A tree over all-zero pages.
    pub fn new() -> (tree: Self)
        ensures
            tree@ == Map::<u64, Seq<u8>>::empty(),
    {
        broadcast use vstd::std_specs::hash::group_hash_axioms;

        let tree = SparseMerkleTree { leaves: HashMap::new(), defaults: default_hashes() };
        assert(tree@ =~= Map::<u64, Seq<u8>>::empty());
        tree
    }

    /// Exchanges the hashed leaves for others.
    fn swap_leaves(&mut self, leaves: &mut HashMap<u64, Digest>)
        ensures
            final(self).leaves == *old(leaves),
            *final(leaves) == old(self).leaves,
            final(self).defaults == old(self).defaults,
        no_unwind
    {
        proof {
            use_type_invariant(&*self);
        }
        std::mem::swap(&mut self.leaves, leaves);
    }

    /// Update the leaf of a single page. Called for every dirty page at
    /// checkpoint time.
    pub fn update_leaf(&mut self, page_idx: u64, page_bytes: &[u8])
        ensures
            final(self)@ == old(self)@.insert(page_idx, blake3_bytes(page_bytes@)),
    {
        let mut leaves: HashMap<u64, Digest> = HashMap::new();
        self.swap_leaves(&mut leaves);
        hash_leaf(&mut leaves, page_idx, page_bytes);
        self.swap_leaves(&mut leaves);
    }

    /// The hash of the leaf of page `page_idx`.
    pub fn leaf_hash(&self, page_idx: u64) -> (hash: Digest)
        ensures
            hash@ == leaf_hash_of(self@, page_idx as int),
    {
        broadcast use vstd::std_specs::hash::group_hash_axioms;

        proof {
            use_type_invariant(self);
        }
        node_or_default(&self.leaves, page_idx, self.defaults[0])
    }

    /// The root of the tree, found by walking only the touched leaves up to
    /// the root. Where a leaf lies outside the tree, several nodes are left
    /// on the level of the root, and the result is the hash of one of them:
    /// which one is not determined.
    pub fn root(&self) -> (root: Digest)
        ensures
            leaves_fit(self@) ==> root@ == merkle_root(self@),
            self@ == Map::<u64, Seq<u8>>::empty() || exists|i: int|
                touched(self@, TREE_DEPTH as nat, i) && root@ == #[trigger] node_hash(
                    self@,
                    TREE_DEPTH as nat,
                    i,
                ),
    {
        broadcast use vstd::std_specs::hash::group_hash_axioms;

        proof {
            use_type_invariant(self);
        }
        if self.leaves.is_empty() {
            proof {
                assert(self@ =~= Map::<u64, Seq<u8>>::empty());
                lemma_untouched_is_default(self@, TREE_DEPTH as nat, 0);
            }
            return self.defaults[TREE_DEPTH];
        }
        proof {
            assert forall|i: u64| #[trigger] self.leaves@.contains_key(i) <==> touched(
                self@,
                0,
                i as int,
            ) by {
                if self.leaves@.contains_key(i) {
                    assert(ancestor(i as int, 0) == i as int);
                }
            }
        }
        let mut level = parent_level(
            &self.leaves,
            self.defaults[0],
            Ghost(self@),
            Ghost(0nat),
        );
        let mut depth: usize = 1;
        while depth < TREE_DEPTH
            invariant
                1 <= depth <= TREE_DEPTH,
                self.defaults@.len() == TREE_DEPTH + 1,
                forall|d: int|
                    0 <= d <= TREE_DEPTH ==> (#[trigger] self.defaults@[d])@ == default_hash(
                        d as nat,
                    ),
                is_level(self@, depth as nat, level@),
            decreases TREE_DEPTH - depth,
        {
            level = parent_level(&level, self.defaults[depth], Ghost(self@), Ghost(depth as nat));
            depth += 1;
        }
        for idx in it: level.keys()
            invariant
                is_level(self@, TREE_DEPTH as nat, level@),
                it.seq().unref().to_set() == level@.dom(),
                it.index() == 0,
                self.defaults@.len() == TREE_DEPTH + 1,
        {
            proof {
                assert(it.seq().unref()[0] == *idx);
                assert(it.seq().unref().to_set().contains(*idx));
                if leaves_fit(self@) {
                    let k = choose|k: u64|
                        self@.contains_key(k) && #[trigger] ancestor(k as int, TREE_DEPTH as nat)
                            == *idx as int;
                    lemma_ancestor_of_fitting_leaf(k);
                }
            }
            return node_or_default(&level, *idx, self.defaults[TREE_DEPTH]);
        }
        proof {
            let k = choose|k: u64| self.leaves@.contains_key(k);
            lemma_ancestor_bounds(k as int, TREE_DEPTH as nat);
            let top = ancestor(k as int, TREE_DEPTH as nat) as u64;
            assert(touched(self@, TREE_DEPTH as nat, top as int));
            assert(level@.dom().contains(top));
        }
        self.defaults[TREE_DEPTH]
    }
}

impl Default for SparseMerkleTree {
    fn default() -> (tree: Self)
        ensures
            tree@ == Map::<u64, Seq<u8>>::empty(),
    {
        Self::new()
    }
}

/// Hashes a page into `leaves`.
fn hash_leaf(leaves: &mut HashMap<u64, Digest>, page_idx: u64, page_bytes: &[u8])
    ensures
        digests(final(leaves)@) == digests(old(leaves)@).insert(
            page_idx,
            blake3_bytes(page_bytes@),
        ),
{
    broadcast use vstd::std_specs::hash::group_hash_axioms;

    let hash = Digest::of(page_bytes);
    leaves.insert(page_idx, hash);
    assert(digests(leaves@) =~= digests(old(leaves)@).insert(page_idx, blake3_bytes(page_bytes@)));
}

/// A claim about one checkpoint: its tick, its root and the digest of the
/// register state.
pub type Claim = (u64, Digest, Digest);

/// A claim with its digests as bytes.
pub open spec fn claim_bytes(claim: Claim) -> (u64, Seq<u8>, Seq<u8>) {
    (claim.0, claim.1@, claim.2@)
}

/// What is hashed to extend the chain by one checkpoint.
pub open spec fn chain_preimage(prev: Seq<u8>, claim: Claim) -> Seq<u8> {
    prev + claim.1@ + claim.2@ + vstd::bytes::spec_u64_to_le_bytes(claim.0)
}

/// The chain hash after the given checkpoints.
pub open spec fn chain_hash_of(claims: Seq<Claim>) -> Seq<u8>
    decreases claims.len(),
{
    if claims.len() == 0 {
        blake3_bytes(GENESIS_SEED@)
    } else {
        blake3_bytes(chain_preimage(chain_hash_of(claims.drop_last()), claims.last()))
    }
}

/// A single entry in the checkpoint chain: the root of the checkpoint, the
/// digest of the register state, the tick at which it was taken, and a hash
/// that links it to the entry before.
#[derive(Debug, Clone, Copy)]
pub struct CheckpointEntry {
    pub tick: u64,
    pub smt_root: Digest,
    pub register_digest: Digest,
    pub chain_hash: Digest,
}

/// The claim that an entry makes.
pub open spec fn claim_of(entry: CheckpointEntry) -> Claim {
    (entry.tick, entry.smt_root, entry.register_digest)
}

/// The claims of a sequence of entries.
pub open spec fn claims_of(entries: Seq<CheckpointEntry>) -> Seq<Claim> {
    entries.map_values(|e: CheckpointEntry| claim_of(e))
}

/// `leaves` with the pages in `dirty` hashed anew.
pub open spec fn rehashed(
    leaves: Map<u64, Seq<u8>>,
    region: Seq<u8>,
    dirty: Set<u64>,
) -> Map<u64, Seq<u8>> {
    Map::new(
        |p: u64| leaves.contains_key(p) || dirty.contains(p),
        |p: u64|
            if dirty.contains(p) {
                blake3_bytes(page_of(region, p))
            } else {
                leaves[p]
            },
    )
}

#[derive(Debug, Clone, Copy, PartialEq, Eq)]
pub enum ChainVerifyError {
    /// Empty claim sequence.
    Empty,
}

/// The tree over a cell's pages and the append-only chain of its checkpoints.
pub struct CheckpointChain {
    tree: SparseMerkleTree,
    entries: Vec<CheckpointEntry>,
}

impl CheckpointChain {
    /// Every leaf lies in the tree, and every entry carries the chain hash of
    /// the entries up to it.
    #[verifier::type_invariant]
    spec fn inv(self) -> bool {
        &&& leaves_fit(self.tree@)
        &&& forall|i: int|
            0 <= i < self.entries@.len() ==> (#[trigger] self.entries@[i]).chain_hash@
                == chain_hash_of(claims_of(self.entries@.take(i + 1)))
    }

    /// The leaves hashed so far.
    pub closed spec fn leaves(&self) -> Map<u64, Seq<u8>> {
        self.tree@
    }

    /// The checkpoints taken so far.
    pub closed spec fn entries(&self) -> Seq<CheckpointEntry> {
        self.entries@
    }

    pub fn new() -> (chain: Self)
        ensures
            chain.leaves() == Map::<u64, Seq<u8>>::empty(),
            chain.entries() == Seq::<CheckpointEntry>::empty(),
    {
        CheckpointChain { tree: SparseMerkleTree::new(), entries: Vec::new() }
    }

    /// Take a checkpoint at `tick`: rehash only the pages in `dirty`, fold in
    /// the caller's digest of the register state, and append a new entry,
    /// linked to the one before.
    pub fn checkpoint<M: GuardedMemory>(
        &mut self,
        tick: u64,
        mem: &M,
        dirty: &DirtyPageSet,
        register_digest: Digest,
    ) -> (entry: CheckpointEntry)
        requires
            forall|p: u64| #[trigger] dirty@.contains(p) ==> p < mem.page_count(),
        ensures
            final(self).leaves() == rehashed(old(self).leaves(), mem.region(), dirty@),
            final(self).entries() == old(self).entries().push(entry),
            entry.tick == tick,
            entry.smt_root@ == merkle_root(final(self).leaves()),
            entry.register_digest == register_digest,
            entry.chain_hash@ == chain_hash_of(claims_of(final(self).entries())),
    {
        proof {
            use_type_invariant(&*self);
        }
        let ghost before = *self;
        let mut leaves: HashMap<u64, Digest> = HashMap::new();
        self.tree.swap_leaves(&mut leaves);
        let pages = dirty.iter_dirty();
        let mut i: usize = 0;
        while i < pages.len()
            invariant
                i <= pages@.len(),
                crate::dirty::lists_ascending(pages@, dirty@),
                forall|p: u64| #[trigger] dirty@.contains(p) ==> p < mem.page_count(),
                digests(leaves@) == rehashed(
                    before.tree@,
                    mem.region(),
                    pages@.take(i as int).to_set(),
                ),
                leaves_fit(digests(leaves@)),
            decreases pages@.len() - i,
        {
            let page_idx: u64 = pages[i];
            assert(pages@.contains(page_idx));
            hash_leaf(&mut leaves, page_idx, mem.page_bytes(page_idx));
            proof {
                let done = pages@.take(i as int);
                assert(pages@.take(i + 1) =~= done.push(page_idx));
                assert forall|p: u64| #[trigger]
                    done.push(page_idx).to_set().contains(p) <==> done.to_set().contains(p) || p
                        == page_idx by {
                    if done.to_set().contains(p) {
                        let j = choose|j: int| 0 <= j < done.len() && done[j] == p;
                        assert(done.push(page_idx)[j] == p);
                    }
                    assert(done.push(page_idx)[i as int] == page_idx);
                }
                assert(rehashed(before.tree@, mem.region(), done.to_set()).insert(
                    page_idx,
                    blake3_bytes(page_of(mem.region(), page_idx)),
                ) =~= rehashed(before.tree@, mem.region(), done.push(page_idx).to_set()));
            }
            i += 1;
        }
        proof {
            assert(pages@.take(i as int) =~= pages@);
            assert(pages@.to_set() =~= dirty@);
        }
        self.tree.swap_leaves(&mut leaves);
        let smt_root = self.tree.root();
        let prev_chain_hash = match self.latest() {
            Some(entry) => entry.chain_hash,
            None => Digest::of(&GENESIS_SEED),
        };
        assert(prev_chain_hash@ == chain_hash_of(claims_of(before.entries@)));
        let chain_hash = fold_claim(prev_chain_hash, tick, smt_root, register_digest);
        let entry = CheckpointEntry { tick, smt_root, register_digest, chain_hash };
        let mut entries: Vec<CheckpointEntry> = Vec::new();
        std::mem::swap(&mut self.entries, &mut entries);
        entries.push(entry);
        proof {
            assert(claims_of(entries@).drop_last() =~= claims_of(before.entries@));
            assert(claims_of(entries@).last() == claim_of(entry));
            assert(chain_hash@ == chain_hash_of(claims_of(entries@)));
            assert forall|i: int| 0 <= i < entries@.len() implies (
            #[trigger] entries@[i]).chain_hash@ == chain_hash_of(
                claims_of(entries@.take(i + 1)),
            ) by {
                if i < before.entries@.len() {
                    assert(entries@[i] == before.entries@[i]);
                    assert(entries@.take(i + 1) =~= before.entries@.take(i + 1));
                } else {
                    assert(entries@.take(i + 1) =~= entries@);
                }
            }
        }
        self.entries = entries;
        entry
    }

    /// Independently recompute the chain hash of a claimed sequence of
    /// checkpoints. There must be one at least.
    pub fn verify_chain(claims: &[Claim]) -> (verified: Result<Digest, ChainVerifyError>)
        ensures
            claims@.len() == 0 ==> verified == Err::<Digest, ChainVerifyError>(
                ChainVerifyError::Empty,
            ),
            claims@.len() > 0 ==> verified is Ok && verified->Ok_0@ == chain_hash_of(claims@),
    {
        if claims.len() == 0 {
            return Err(ChainVerifyError::Empty);
        }
        let mut chain_hash = Digest::of(&GENESIS_SEED);
        let mut i: usize = 0;
        assert(claims@.take(0).len() == 0);
        while i < claims.len()
            invariant
                i <= claims@.len(),
                chain_hash@ == chain_hash_of(claims@.take(i as int)),
            decreases claims@.len() - i,
        {
            let (tick, smt_root, register_digest) = claims[i];
            chain_hash = fold_claim(chain_hash, tick, smt_root, register_digest);
            assert(claims@.take(i + 1).drop_last() =~= claims@.take(i as int));
            i += 1;
        }
        assert(claims@.take(claims@.len() as int) =~= claims@);
        Ok(chain_hash)
    }

    /// The last checkpoint, whose chain hash vouches for all before it.
    pub fn latest(&self) -> (entry: Option<&CheckpointEntry>)
        ensures
            self.entries().len() == 0 ==> entry is None,
            self.entries().len() > 0 ==> entry == Some(&self.entries().last()),
            entry is Some ==> entry->Some_0.chain_hash@ == chain_hash_of(claims_of(self.entries())),
    {
        proof {
            use_type_invariant(self);
        }
        let n: usize = self.entries.len();
        if n == 0 {
            None
        } else {
            assert(self.entries@.take(n as int) =~= self.entries@);
            Some(&self.entries[n - 1])
        }
    }
}

impl Default for CheckpointChain {
    fn default() -> (chain: Self)
        ensures
            chain.leaves() == Map::<u64, Seq<u8>>::empty(),
            chain.entries() == Seq::<CheckpointEntry>::empty(),
    {
        Self::new()
    }
}

/// The chain hash after one more checkpoint.
fn fold_claim(prev: Digest, tick: u64, smt_root: Digest, register_digest: Digest) -> (hash: Digest)
    ensures
        hash@ == blake3_bytes(chain_preimage(prev@, (tick, smt_root, register_digest))),
{
    let mut preimage: Vec<u8> = Vec::new();
    prev.append_to(&mut preimage);
    smt_root.append_to(&mut preimage);
    register_digest.append_to(&mut preimage);
    let mut tick_bytes: Vec<u8> = vstd::bytes::u64_to_le_bytes(tick);
    preimage.append(&mut tick_bytes);
    assert(preimage@ =~= chain_preimage(prev@, (tick, smt_root, register_digest)));
    Digest::of(preimage.as_slice())
}

proof fn lemma_untouched_is_default(leaves: Map<u64, Seq<u8>>, depth: nat, idx: int)
    requires
        !touched(leaves, depth, idx),
    ensures
        node_hash(leaves, depth, idx) == default_hash(depth),
    decreases depth,
{
    if depth == 0 {
        if 0 <= idx <= u64::MAX && leaves.contains_key(idx as u64) {
            assert(ancestor((idx as u64) as int, 0) == idx);
        }
    } else {
        let below = (depth - 1) as nat;
        if touched(leaves, below, 2 * idx) {
            let k = choose|k: u64|
                leaves.contains_key(k) && #[trigger] ancestor(k as int, below) == 2 * idx;
            assert(ancestor(k as int, depth) == idx);
        }
        if touched(leaves, below, 2 * idx + 1) {
            let k = choose|k: u64|
                leaves.contains_key(k) && #[trigger] ancestor(k as int, below) == 2 * idx + 1;
            assert(ancestor(k as int, depth) == idx);
        }
        lemma_untouched_is_default(leaves, below, 2 * idx);
        lemma_untouched_is_default(leaves, below, 2 * idx + 1);
    }
}

proof fn lemma_ancestor_bounds(k: int, depth: nat)
    requires
        0 <= k,
    ensures
        0 <= ancestor(k, depth) <= k,
    decreases depth,
{
    if depth > 0 {
        lemma_ancestor_bounds(k, (depth - 1) as nat);
    }
}

/// The ancestor `depth` levels up covers `pow2(depth)` leaves.
proof fn lemma_ancestor_shrinks(k: int, depth: nat)
    requires
        0 <= k,
    ensures
        0 <= ancestor(k, depth),
        ancestor(k, depth) * vstd::arithmetic::power2::pow2(depth) <= k,
    decreases depth,
{
    if depth == 0 {
        vstd::arithmetic::power2::lemma2_to64();
    } else {
        let below = (depth - 1) as nat;
        lemma_ancestor_shrinks(k, below);
        vstd::arithmetic::power2::lemma_pow2_unfold(depth);
        let a = ancestor(k, below);
        let p = vstd::arithmetic::power2::pow2(below) as int;
        assert((a / 2) * (2 * p) <= k) by (nonlinear_arith)
            requires
                a * p <= k,
                0 <= a,
                0 <= p,
        ;
    }
}

proof fn lemma_ancestor_of_fitting_leaf(k: u64)
    requires
        k < LEAF_COUNT,
    ensures
        ancestor(k as int, TREE_DEPTH as nat) == 0,
{
    lemma_ancestor_shrinks(k as int, TREE_DEPTH as nat);
    vstd::arithmetic::power2::lemma2_to64();
    let a = ancestor(k as int, 32);
    assert(a == 0) by (nonlinear_arith)
        requires
            0 <= a,
            a * 0x1_0000_0000 <= k,
            k < 0x1_0000_0000,
    ;
}

/// Hashes that are held as leaves have the length of a digest.
pub open spec fn leaves_are_digests(leaves: Map<u64, Seq<u8>>) -> bool {
    forall|k: u64| #[trigger] leaves.contains_key(k) ==> leaves[k].len() == 32
}

/// The leaves of a tree over every page of a region.
pub open spec fn all_leaves(region: Seq<u8>, page_count: u64) -> Map<u64, Seq<u8>> {
    Map::new(|p: u64| p < page_count, |p: u64| blake3_bytes(page_of(region, p)))
}

/// Two regions agree on every page outside `dirty`.
pub open spec fn same_outside(
    before: Seq<u8>,
    after: Seq<u8>,
    page_count: u64,
    dirty: Set<u64>,
) -> bool {
    forall|p: u64|
        p < page_count && !dirty.contains(p) ==> #[trigger] page_of(after, p) == page_of(before, p)
}

proof fn lemma_same_leaves_same_node(
    a: Map<u64, Seq<u8>>,
    b: Map<u64, Seq<u8>>,
    depth: nat,
    idx: int,
)
    requires
        forall|k: int| #[trigger] leaf_hash_of(a, k) == leaf_hash_of(b, k),
    ensures
        node_hash(a, depth, idx) == node_hash(b, depth, idx),
    decreases depth,
{
    if depth > 0 {
        let below = (depth - 1) as nat;
        lemma_same_leaves_same_node(a, b, below, 2 * idx);
        lemma_same_leaves_same_node(a, b, below, 2 * idx + 1);
    }
}

/// Trees that agree on every leaf have the same root.
pub proof fn lemma_same_leaves_same_root(a: Map<u64, Seq<u8>>, b: Map<u64, Seq<u8>>)
    requires
        forall|k: int| #[trigger] leaf_hash_of(a, k) == leaf_hash_of(b, k),
    ensures
        merkle_root(a) == merkle_root(b),
{
    lemma_same_leaves_same_node(a, b, TREE_DEPTH as nat, 0);
}

proof fn lemma_node_len(leaves: Map<u64, Seq<u8>>, depth: nat, idx: int)
    requires
        leaves_are_digests(leaves),
    ensures
        node_hash(leaves, depth, idx).len() == 32,
{
}

/// What is hashed to get the hash of an inner node: those of its children.
pub open spec fn node_input(leaves: Map<u64, Seq<u8>>, depth: nat, idx: int) -> Seq<u8> {
    let below = (depth - 1) as nat;
    node_hash(leaves, below, 2 * idx) + node_hash(leaves, below, 2 * idx + 1)
}

/// Two trees hash different inputs to the same hash, on the way from leaf
/// `page_idx` to the root.
pub open spec fn path_collides(
    a: Map<u64, Seq<u8>>,
    b: Map<u64, Seq<u8>>,
    page_idx: u64,
) -> bool {
    exists|depth: nat|
        0 < depth <= TREE_DEPTH && collide(
            node_input(a, depth, #[trigger] ancestor(page_idx as int, depth)),
            node_input(b, depth, ancestor(page_idx as int, depth)),
        )
}

/// The node above a leaf on level `depth` is bound by the root.
proof fn lemma_root_binds_node(
    a: Map<u64, Seq<u8>>,
    b: Map<u64, Seq<u8>>,
    page_idx: u64,
    depth: nat,
)
    requires
        leaves_are_digests(a),
        leaves_are_digests(b),
        page_idx < LEAF_COUNT,
        depth <= TREE_DEPTH,
        merkle_root(a) == merkle_root(b),
        node_hash(a, depth, ancestor(page_idx as int, depth)) != node_hash(
            b,
            depth,
            ancestor(page_idx as int, depth),
        ),
    ensures
        path_collides(a, b, page_idx),
    decreases TREE_DEPTH - depth,
{
    let k = page_idx as int;
    lemma_ancestor_of_fitting_leaf(page_idx);
    if depth < TREE_DEPTH {
        let above = depth + 1;
        let i = ancestor(k, depth);
        let j = ancestor(k, above);
        let x = node_input(a, above, j);
        let y = node_input(b, above, j);
        lemma_node_len(a, depth, 2 * j);
        lemma_node_len(b, depth, 2 * j);
        assert(i == 2 * j || i == 2 * j + 1);
        if x == y {
            assert(x.take(32) =~= node_hash(a, depth, 2 * j));
            assert(y.take(32) =~= node_hash(b, depth, 2 * j));
            assert(x.skip(32) =~= node_hash(a, depth, 2 * j + 1));
            assert(y.skip(32) =~= node_hash(b, depth, 2 * j + 1));
        }
        assert(x != y);
        if node_hash(a, above, j) == node_hash(b, above, j) {
            assert(collide(x, y));
        } else {
            lemma_root_binds_node(a, b, page_idx, above);
        }
    }
}

/// The root commits to every page: two trees that hold different pages at one
/// place have different roots, unless BLAKE3 collides on the two pages or on
/// the way from them to the root.
pub proof fn law_root_binds_pages(
    a: Map<u64, Seq<u8>>,
    b: Map<u64, Seq<u8>>,
    page_idx: u64,
    page_a: Seq<u8>,
    page_b: Seq<u8>,
)
    requires
        leaves_are_digests(a),
        leaves_are_digests(b),
        page_idx < LEAF_COUNT,
        leaf_hash_of(a, page_idx as int) == blake3_bytes(page_a),
        leaf_hash_of(b, page_idx as int) == blake3_bytes(page_b),
        page_a != page_b,
    ensures
        merkle_root(a) != merkle_root(b) || collide(page_a, page_b) || path_collides(
            a,
            b,
            page_idx,
        ),
{
    assert(ancestor(page_idx as int, 0) == page_idx as int);
    if merkle_root(a) == merkle_root(b) && !collide(page_a, page_b) {
        lemma_root_binds_node(a, b, page_idx, 0);
    }
}

/// Hashing a page that was not hashed before changes the root, if the page is
/// not all zero and BLAKE3 does not collide.
pub proof fn law_touching_a_leaf_changes_the_root(
    leaves: Map<u64, Seq<u8>>,
    page_idx: u64,
    page: Seq<u8>,
)
    requires
        leaves_are_digests(leaves),
        !leaves.contains_key(page_idx),
        page_idx < LEAF_COUNT,
        page != zero_page(),
    ensures
        ({
            let after = leaves.insert(page_idx, blake3_bytes(page));
            ||| merkle_root(after) != merkle_root(leaves)
            ||| collide(page, zero_page())
            ||| path_collides(after, leaves, page_idx)
        }),
{
    law_root_binds_pages(
        leaves.insert(page_idx, blake3_bytes(page)),
        leaves,
        page_idx,
        page,
        zero_page(),
    );
}

/// An all-zero page counts as one that was never touched.
pub proof fn law_zero_page_keeps_the_root(leaves: Map<u64, Seq<u8>>, page_idx: u64)
    requires
        !leaves.contains_key(page_idx),
    ensures
        merkle_root(leaves.insert(page_idx, blake3_bytes(zero_page()))) == merkle_root(leaves),
{
    lemma_same_leaves_same_node(
        leaves.insert(page_idx, blake3_bytes(zero_page())),
        leaves,
        TREE_DEPTH as nat,
        0,
    );
}

/// A subtree without a touched leaf has the hash known in advance for its
/// depth.
pub proof fn law_untouched_subtree_collapses(leaves: Map<u64, Seq<u8>>, depth: nat, idx: int)
    requires
        !touched(leaves, depth, idx),
    ensures
        node_hash(leaves, depth, idx) == default_hash(depth),
{
    lemma_untouched_is_default(leaves, depth, idx);
}

/// The order in which two pages are hashed does not matter, and of two
/// updates of one page the last counts.
pub proof fn law_update_order_is_irrelevant(
    leaves: Map<u64, Seq<u8>>,
    i: u64,
    j: u64,
    x: Seq<u8>,
    y: Seq<u8>,
)
    ensures
        i != j ==> leaves.insert(i, x).insert(j, y) == leaves.insert(j, y).insert(i, x),
        leaves.insert(i, x).insert(i, y) == leaves.insert(i, y),
{
    if i != j {
        assert(leaves.insert(i, x).insert(j, y) =~= leaves.insert(j, y).insert(i, x));
    }
    assert(leaves.insert(i, x).insert(i, y) =~= leaves.insert(i, y));
}

/// Hashing only the dirty pages gives the root that hashing the whole memory
/// gives: where the leaves stood for the memory before, and only dirty pages
/// changed since, the leaves with the dirty pages hashed anew stand for the
/// memory after.
pub proof fn law_rehashing_dirty_pages_suffices(
    leaves: Map<u64, Seq<u8>>,
    before: Seq<u8>,
    after: Seq<u8>,
    page_count: u64,
    dirty: Set<u64>,
)
    requires
        forall|k: int|
            #[trigger] leaf_hash_of(leaves, k) == leaf_hash_of(all_leaves(before, page_count), k),
        same_outside(before, after, page_count, dirty),
        forall|p: u64| #[trigger] dirty.contains(p) ==> p < page_count,
    ensures
        forall|k: int| #[trigger]
            leaf_hash_of(rehashed(leaves, after, dirty), k) == leaf_hash_of(
                all_leaves(after, page_count),
                k,
            ),
        merkle_root(rehashed(leaves, after, dirty)) == merkle_root(all_leaves(after, page_count)),
{
    let new = rehashed(leaves, after, dirty);
    let full = all_leaves(after, page_count);
    assert forall|k: int| #[trigger] leaf_hash_of(new, k) == leaf_hash_of(full, k) by {
        assert(leaf_hash_of(leaves, k) == leaf_hash_of(all_leaves(before, page_count), k));
        if 0 <= k < page_count && !dirty.contains(k as u64) {
            assert(page_of(after, k as u64) == page_of(before, k as u64));
        }
    }
    lemma_same_leaves_same_node(new, full, TREE_DEPTH as nat, 0);
}

/// A tree in which nothing is hashed yet stands for a memory of zero bytes.
pub proof fn law_new_tree_stands_for_zero_memory(page_count: u64)
    ensures
        forall|k: int| #[trigger]
            leaf_hash_of(Map::empty(), k) == leaf_hash_of(
                all_leaves(
                    crate::delta::zeros((page_count * PAGE_SIZE) as nat),
                    page_count,
                ),
                k,
            ),
{
    let region = crate::delta::zeros((page_count * PAGE_SIZE) as nat);
    assert forall|k: int| #[trigger]
        leaf_hash_of(Map::empty(), k) == leaf_hash_of(all_leaves(region, page_count), k) by {
        if 0 <= k < page_count {
            assert((k as u64) * PAGE_SIZE + PAGE_SIZE <= page_count * PAGE_SIZE)
                by (nonlinear_arith)
                requires
                    0 <= k < page_count,
            ;
            assert(page_of(region, k as u64) =~= zero_page());
        }
    }
}

/// What is hashed last to get the chain hash.
pub open spec fn chain_input(claims: Seq<Claim>) -> Seq<u8> {
    if claims.len() == 0 {
        GENESIS_SEED@
    } else {
        chain_preimage(chain_hash_of(claims.drop_last()), claims.last())
    }
}

/// Two chains hash different inputs to the same hash, equally far from their
/// ends.
pub open spec fn chains_collide(a: Seq<Claim>, b: Seq<Claim>) -> bool {
    exists|n: int|
        0 <= n <= a.len() && n <= b.len() && collide(
            chain_input(#[trigger] a.take(a.len() - n)),
            chain_input(b.take(b.len() - n)),
        )
}

/// The chain is tamper-evident: two sequences of claims that differ anywhere,
/// in a tick, a root or a register digest, or in length, have different chain
/// hashes, unless BLAKE3 collides on what the two chains hash.
pub proof fn law_chain_is_tamper_evident(a: Seq<Claim>, b: Seq<Claim>)
    requires
        a.map_values(|c: Claim| claim_bytes(c)) != b.map_values(|c: Claim| claim_bytes(c)),
    ensures
        chain_hash_of(a) != chain_hash_of(b) || chains_collide(a, b),
    decreases a.len(),
{
    let bytes = |c: Claim| claim_bytes(c);
    if chain_hash_of(a) == chain_hash_of(b) {
        let x = chain_input(a);
        let y = chain_input(b);
        assert(blake3_bytes(x) == blake3_bytes(y));
        assert(a.take(a.len() - 0) =~= a);
        assert(b.take(b.len() - 0) =~= b);
        if x == y {
            lemma_chain_input_len(a);
            lemma_chain_input_len(b);
            if a.len() == 0 {
                assert(a.map_values(bytes) =~= b.map_values(bytes));
            } else {
                let (a_rest, b_rest) = (a.drop_last(), b.drop_last());
                let (ca, cb) = (a.last(), b.last());
                lemma_claim_is_bound(a, b);
                if a_rest.map_values(bytes) == b_rest.map_values(bytes) {
                    assert(a.map_values(bytes) =~= a_rest.map_values(bytes).push(claim_bytes(ca)));
                    assert(b.map_values(bytes) =~= b_rest.map_values(bytes).push(claim_bytes(cb)));
                }
                law_chain_is_tamper_evident(a_rest, b_rest);
                let n = choose|n: int|
                    0 <= n <= a_rest.len() && n <= b_rest.len() && collide(
                        chain_input(#[trigger] a_rest.take(a_rest.len() - n)),
                        chain_input(b_rest.take(b_rest.len() - n)),
                    );
                assert(a.take(a.len() - (n + 1)) =~= a_rest.take(a_rest.len() - n));
                assert(b.take(b.len() - (n + 1)) =~= b_rest.take(b_rest.len() - n));
            }
        }
    }
}

/// The chain hash depends on the bytes of the claims alone.
pub proof fn lemma_chain_hash_is_of_bytes(a: Seq<Claim>, b: Seq<Claim>)
    requires
        a.len() == b.len(),
        forall|i: int| 0 <= i < a.len() ==> claim_bytes(#[trigger] a[i]) == claim_bytes(b[i]),
    ensures
        chain_hash_of(a) == chain_hash_of(b),
    decreases a.len(),
{
    if a.len() > 0 {
        let (a_rest, b_rest) = (a.drop_last(), b.drop_last());
        assert forall|i: int| 0 <= i < a_rest.len() implies claim_bytes(#[trigger] a_rest[i])
            == claim_bytes(b_rest[i]) by {
            assert(a_rest[i] == a[i] && b_rest[i] == b[i]);
        }
        lemma_chain_hash_is_of_bytes(a_rest, b_rest);
        assert(claim_bytes(a[a.len() - 1]) == claim_bytes(b[b.len() - 1]));
    }
}

/// What is hashed last binds the last claim and the chain before it.
proof fn lemma_claim_is_bound(a: Seq<Claim>, b: Seq<Claim>)
    requires
        a.len() > 0,
        b.len() > 0,
        chain_input(a) == chain_input(b),
    ensures
        claim_bytes(a.last()) == claim_bytes(b.last()),
        chain_hash_of(a.drop_last()) == chain_hash_of(b.drop_last()),
{
    let x = chain_input(a);
    let y = chain_input(b);
    let prev_a = chain_hash_of(a.drop_last());
    let prev_b = chain_hash_of(b.drop_last());
    let (ca, cb) = (a.last(), b.last());
    lemma_digest_len(ca.1);
    lemma_digest_len(ca.2);
    lemma_digest_len(cb.1);
    lemma_digest_len(cb.2);
    assert(x.subrange(0, 32) =~= prev_a);
    assert(y.subrange(0, 32) =~= prev_b);
    assert(x.subrange(32, 64) =~= ca.1@);
    assert(y.subrange(32, 64) =~= cb.1@);
    assert(x.subrange(64, 96) =~= ca.2@);
    assert(y.subrange(64, 96) =~= cb.2@);
    vstd::bytes::lemma_auto_spec_u64_to_from_le_bytes();
    assert(x.subrange(96, 104) =~= vstd::bytes::spec_u64_to_le_bytes(ca.0));
    assert(y.subrange(96, 104) =~= vstd::bytes::spec_u64_to_le_bytes(cb.0));
    assert(ca.0 == cb.0);
}

proof fn lemma_chain_input_len(claims: Seq<Claim>)
    ensures
        chain_input(claims).len() == (if claims.len() == 0 {
            19int
        } else {
            104
        }),
{
    if claims.len() > 0 {
        lemma_digest_len(claims.last().1);
        lemma_digest_len(claims.last().2);
        vstd::bytes::lemma_auto_spec_u64_to_from_le_bytes();
    }
}

/// A leaf is the hash that is held for it, or that of a page of zeros, and the
/// root is the one node of the level 32 above the leaves.
pub proof fn law_leaf_is_held_or_zero(leaves: Map<u64, Seq<u8>>, page_idx: u64)
    ensures
        leaves.contains_key(page_idx) ==> node_hash(leaves, 0, page_idx as int) == leaves[page_idx],
        !leaves.contains_key(page_idx) ==> node_hash(leaves, 0, page_idx as int) == blake3_digest(
            Seq::new(4096, |i: int| 0u8),
        )@,
        merkle_root(leaves) == node_hash(leaves, 32, 0),
        leaf_hash_of(leaves, page_idx as int) == node_hash(leaves, 0, page_idx as int),
{
    assert(zero_page() =~= Seq::new(4096, |i: int| 0u8));
}

/// A node is the hash of its left child followed by its right child.
pub proof fn law_node_joins_children(leaves: Map<u64, Seq<u8>>, depth: nat, idx: int)
    ensures
        node_hash(leaves, depth + 1, idx) == blake3_digest(
            node_hash(leaves, depth, 2 * idx) + node_hash(leaves, depth, 2 * idx + 1),
        )@,
        default_hash(depth + 1) == blake3_digest(default_hash(depth) + default_hash(depth))@,
        default_hash(0) == blake3_digest(Seq::new(4096, |i: int| 0u8))@,
{
    assert(zero_page() =~= Seq::new(4096, |i: int| 0u8));
}

/// The node above a leaf is found by halving its index, level by level, and a
/// node is touched by the leaves below it. All leaves below 2^32 fit.
pub proof fn law_path_halves(leaves: Map<u64, Seq<u8>>, page_idx: u64, depth: nat)
    ensures
        ancestor(page_idx as int, 0) == page_idx,
        ancestor(page_idx as int, depth + 1) == ancestor(page_idx as int, depth) / 2,
        leaves.contains_key(page_idx) ==> touched(
            leaves,
            depth,
            ancestor(page_idx as int, depth),
        ),
        (forall|k: u64| #[trigger] leaves.contains_key(k) ==> k < 0x1_0000_0000) <==> leaves_fit(
            leaves,
        ),
{
}

/// A checkpoint hashes exactly the dirty pages anew, each from its own bytes of
/// the region, and keeps every other leaf.
pub proof fn law_rehash_takes_dirty_pages(
    leaves: Map<u64, Seq<u8>>,
    region: Seq<u8>,
    dirty: Set<u64>,
    p: u64,
)
    ensures
        rehashed(leaves, region, dirty).contains_key(p) <==> leaves.contains_key(p)
            || dirty.contains(p),
        dirty.contains(p) ==> rehashed(leaves, region, dirty)[p] == blake3_digest(
            region.subrange(p * 4096, p * 4096 + 4096),
        )@,
        !dirty.contains(p) && leaves.contains_key(p) ==> rehashed(leaves, region, dirty)[p]
            == leaves[p],
{
}

/// The chain starts from the hash of its seed, and each checkpoint extends it
/// by the hash of the chain so far, the root, the register digest and the tick,
/// lowest byte first.
pub proof fn law_chain_links_checkpoints(
    claims: Seq<Claim>,
    tick: u64,
    root: Digest,
    registers: Digest,
)
    ensures
        chain_hash_of(Seq::empty()) == blake3_digest(
            seq![
                99u8,
                104u8,
                114u8,
                111u8,
                110u8,
                111u8,
                115u8,
                45u8,
                117u8,
                118u8,
                109u8,
                45u8,
                103u8,
                101u8,
                110u8,
                101u8,
                115u8,
                105u8,
                115u8,
            ],
        )@,
        chain_hash_of(claims.push((tick, root, registers))) == blake3_digest(
            chain_hash_of(claims) + root@ + registers@ + vstd::bytes::spec_u64_to_le_bytes(tick),
        )@,
{
    assert(claims.push((tick, root, registers)).drop_last() =~= claims);
    assert(GENESIS_SEED@ =~= seq![
        99u8,
        104u8,
        114u8,
        111u8,
        110u8,
        111u8,
        115u8,
        45u8,
        117u8,
        118u8,
        109u8,
        45u8,
        103u8,
        101u8,
        110u8,
        101u8,
        115u8,
        105u8,
        115u8,
    ]);
}

/// An entry claims its tick, its root and its register digest, and a chain
/// claims what its entries claim, in order.
pub proof fn law_entries_claim_what_they_say(entries: Seq<CheckpointEntry>, i: int)
    requires
        0 <= i < entries.len(),
    ensures
        claims_of(entries).len() == entries.len(),
        claims_of(entries)[i] == (
            entries[i].tick,
            entries[i].smt_root,
            entries[i].register_digest,
        ),
        claim_bytes(claims_of(entries)[i]) == (
            entries[i].tick,
            entries[i].smt_root@,
            entries[i].register_digest@,
        ),
{
}

} // verus!
