use chronos::digest::Digest;
use chronos::guarded_memory::{GuardedMemory, MmapGuardedMemory};
use chronos::smt::{ChainVerifyError, CheckpointChain, SparseMerkleTree, PAGE_SIZE};

fn hash(data: &[u8]) -> [u8; 32] {
    *blake3::hash(data).as_bytes()
}

fn join(left: &[u8; 32], right: &[u8; 32]) -> [u8; 32] {
    let mut hasher = blake3::Hasher::new();
    hasher.update(left);
    hasher.update(right);
    *hasher.finalize().as_bytes()
}

#[test]
fn empty_tree_root_is_stable() {
    let t1 = SparseMerkleTree::new();
    let t2 = SparseMerkleTree::new();
    assert_eq!(t1.root(), t2.root());
}

#[test]
fn touching_a_leaf_changes_the_root() {
    let mut t = SparseMerkleTree::new();
    let empty_root = t.root();
    t.update_leaf(1234, &[9u8; PAGE_SIZE]);
    let touched_root = t.root();
    assert_ne!(empty_root, touched_root);
}

#[test]
fn same_touched_pages_same_root_across_instances() {
    let mut t1 = SparseMerkleTree::new();
    let mut t2 = SparseMerkleTree::new();
    for (idx, byte) in [(0u64, 1u8), (5, 2), (1_000_000, 3)] {
        t1.update_leaf(idx, &[byte; PAGE_SIZE]);
        t2.update_leaf(idx, &[byte; PAGE_SIZE]);
    }
    assert_eq!(t1.root(), t2.root());
}

#[test]
fn checkpoint_chain_is_tamper_evident() {
    let reg_digest = Digest::of(b"pc=0,sp=0");
    let mut tree = SparseMerkleTree::new();
    tree.update_leaf(0, &[1u8; PAGE_SIZE]);
    let root1 = tree.root();

    let claims_honest = vec![(1u64, root1, reg_digest)];
    let honest_hash = CheckpointChain::verify_chain(&claims_honest).unwrap();

    let tampered_digest = Digest::of(b"pc=0,sp=1"); // attacker claims different register state
    let claims_tampered = vec![(1u64, root1, tampered_digest)];
    let tampered_hash = CheckpointChain::verify_chain(&claims_tampered).unwrap();

    assert_ne!(honest_hash, tampered_hash);
}

#[test]
fn digest_is_blake3() {
    assert_eq!(Digest::of(b"abc").as_bytes(), &hash(b"abc"));
    let (a, b) = (Digest::of(b"a"), Digest::of(b"b"));
    assert_eq!(Digest::of_pair(a, b).as_bytes(), &join(&hash(b"a"), &hash(b"b")));
    assert_eq!(Digest::from_bytes(hash(b"abc")), Digest::of(b"abc"));
}

#[test]
fn empty_root_is_the_default_hash() {
    let mut expected = hash(&[0u8; PAGE_SIZE]);
    for _ in 0..32 {
        expected = join(&expected, &expected);
    }
    assert_eq!(SparseMerkleTree::new().root().as_bytes(), &expected);
    assert_eq!(SparseMerkleTree::default().root().as_bytes(), &expected);
}

#[test]
fn root_of_one_leaf_follows_its_path() {
    let mut tree = SparseMerkleTree::new();
    tree.update_leaf(5, &[1u8; PAGE_SIZE]);
    assert_eq!(tree.leaf_hash(5).as_bytes(), &hash(&[1u8; PAGE_SIZE]));
    assert_eq!(tree.leaf_hash(4).as_bytes(), &hash(&[0u8; PAGE_SIZE]));
    let mut empty = hash(&[0u8; PAGE_SIZE]);
    let mut node = hash(&[1u8; PAGE_SIZE]);
    let mut idx = 5u64;
    for _ in 0..32 {
        node = if idx % 2 == 0 { join(&node, &empty) } else { join(&empty, &node) };
        empty = join(&empty, &empty);
        idx /= 2;
    }
    assert_eq!(tree.root().as_bytes(), &node);
}

#[test]
fn siblings_are_joined_in_order() {
    let mut tree = SparseMerkleTree::new();
    tree.update_leaf(1, &[2u8; PAGE_SIZE]);
    tree.update_leaf(0, &[1u8; PAGE_SIZE]);
    let mut empty = hash(&[0u8; PAGE_SIZE]);
    empty = join(&empty, &empty);
    let mut node = join(&hash(&[1u8; PAGE_SIZE]), &hash(&[2u8; PAGE_SIZE]));
    for _ in 1..32 {
        node = join(&node, &empty);
        empty = join(&empty, &empty);
    }
    assert_eq!(tree.root().as_bytes(), &node);
}

#[test]
fn zero_page_leaves_the_root_as_it_is() {
    let mut tree = SparseMerkleTree::new();
    tree.update_leaf(7, &[3u8; PAGE_SIZE]);
    let before = tree.root();
    tree.update_leaf(8, &[0u8; PAGE_SIZE]);
    assert_eq!(tree.root(), before);
}

#[test]
fn update_order_does_not_matter() {
    let mut t1 = SparseMerkleTree::new();
    let mut t2 = SparseMerkleTree::new();
    t1.update_leaf(1, &[4u8; PAGE_SIZE]);
    t1.update_leaf(2, &[5u8; PAGE_SIZE]);
    t2.update_leaf(2, &[9u8; PAGE_SIZE]);
    t2.update_leaf(2, &[5u8; PAGE_SIZE]);
    t2.update_leaf(1, &[4u8; PAGE_SIZE]);
    assert_eq!(t1.root(), t2.root());
}

#[test]
fn empty_claims_do_not_verify() {
    assert_eq!(CheckpointChain::verify_chain(&[]), Err(ChainVerifyError::Empty));
    assert!(CheckpointChain::default().latest().is_none());
}

#[test]
fn chain_hash_covers_the_claim() {
    let (root, registers) = (Digest::of(b"root"), Digest::of(b"registers"));
    let mut hasher = blake3::Hasher::new();
    hasher.update(&hash(b"chronos-uvm-genesis"));
    hasher.update(root.as_bytes());
    hasher.update(registers.as_bytes());
    hasher.update(&0x0102_0304_0506_0708u64.to_le_bytes());
    let verified = CheckpointChain::verify_chain(&[(0x0102_0304_0506_0708, root, registers)]);
    assert_eq!(verified.unwrap().as_bytes(), hasher.finalize().as_bytes());
}

#[test]
fn every_part_of_a_claim_is_bound() {
    let (root, registers, other) = (Digest::of(b"r"), Digest::of(b"g"), Digest::of(b"o"));
    let honest = CheckpointChain::verify_chain(&[(1, root, registers)]).unwrap();
    for tampered in [(2, root, registers), (1, other, registers), (1, root, other)] {
        assert_ne!(CheckpointChain::verify_chain(&[tampered]).unwrap(), honest);
    }
    let longer = CheckpointChain::verify_chain(&[(1, root, registers), (1, root, registers)]);
    assert_ne!(longer.unwrap(), honest);
}

#[test]
fn checkpoints_rehash_dirty_pages_only_and_verify() {
    let mut memory = MmapGuardedMemory::new(65536, 65536).unwrap();
    let mut chain = CheckpointChain::new();
    memory.store(4096, &[1, 2, 3]).unwrap();
    memory.mark_dirty(1);
    // Written, but not marked: the checkpoint does not see it.
    memory.store(8192, &[4]).unwrap();
    let registers = Digest::of(b"pc=1");
    let first = chain.checkpoint(10, &memory, memory.dirty_pages(), registers);
    let mut tree = SparseMerkleTree::new();
    tree.update_leaf(1, memory.page_bytes(1));
    assert_eq!(first.smt_root, tree.root());
    assert_eq!(first.tick, 10);
    assert_eq!(first.register_digest, registers);

    memory.clear_dirty_pages();
    memory.mark_dirty(2);
    let second = chain.checkpoint(20, &memory, memory.dirty_pages(), registers);
    let mut whole = SparseMerkleTree::new();
    for page in 0..16 {
        whole.update_leaf(page, memory.page_bytes(page));
    }
    assert_eq!(second.smt_root, whole.root());

    let claims = [
        (first.tick, first.smt_root, first.register_digest),
        (second.tick, second.smt_root, second.register_digest),
    ];
    let latest = chain.latest().unwrap();
    assert_eq!(latest.chain_hash, second.chain_hash);
    assert_eq!(CheckpointChain::verify_chain(&claims).unwrap(), second.chain_hash);
    assert_eq!(CheckpointChain::verify_chain(&claims[..1]).unwrap(), first.chain_hash);
}
