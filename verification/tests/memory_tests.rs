use chronos::delta::{rle_decode, rle_encode, RunLiteral};
use chronos::dirty::DirtyPageSet;
use chronos::guarded_memory::{
    GuardedMemory, MemFault, MemoryBounds, MmapGuardedMemory, RegionLayout, PAGE_SIZE,
};
use chronos::{DeltaEngine, PageDelta};

#[test]
fn mark_and_iterate() {
    let mut d = DirtyPageSet::new(200);
    d.mark(0);
    d.mark(63);
    d.mark(64);
    d.mark(199);
    assert_eq!(d.len(), 4);
    let collected: Vec<u64> = d.iter_dirty();
    assert_eq!(collected, vec![0, 63, 64, 199]);
}

#[test]
fn double_mark_is_idempotent() {
    let mut d = DirtyPageSet::new(10);
    d.mark(3);
    d.mark(3);
    assert_eq!(d.len(), 1);
}

#[test]
fn clear_resets_state() {
    let mut d = DirtyPageSet::new(10);
    d.mark(1);
    d.mark(5);
    d.clear_all();
    assert!(d.is_empty());
    assert!(!d.is_dirty(1));
}

#[test]
fn pages_out_of_range_are_clean() {
    let mut d = DirtyPageSet::new(1);
    d.mark(0);
    assert!(d.is_dirty(0));
    assert!(!d.is_dirty(1));
    assert!(!d.is_dirty(u64::MAX));
    let empty = DirtyPageSet::new(0);
    assert!(empty.is_empty());
    assert_eq!(empty.iter_dirty(), Vec::<u64>::new());
}

#[test]
fn first_touch_is_raw() {
    let mut eng = DeltaEngine::new(4);
    let page = [7u8; PAGE_SIZE];
    let d = eng.diff_and_commit(0, &page);
    assert!(matches!(d, PageDelta::Raw { .. }));
}

#[test]
fn sparse_mutation_roundtrips() {
    let mut primary = DeltaEngine::new(4);
    let mut standby = DeltaEngine::new(4);

    let mut page_a = [0u8; PAGE_SIZE];
    page_a[10] = 42;
    let d1 = primary.diff_and_commit(0, &page_a);
    let applied1 = standby.apply(&d1);
    assert_eq!(applied1, page_a);

    // Small localized mutation -> should favor Xor/RLE encoding.
    let mut page_b = page_a;
    page_b[10] = 43;
    page_b[2000] = 99;
    let d2 = primary.diff_and_commit(0, &page_b);
    assert!(d2.encoded_len() < PAGE_SIZE);
    let applied2 = standby.apply(&d2);
    assert_eq!(applied2, page_b);
}

#[test]
fn dense_mutation_falls_back_to_raw() {
    let mut primary = DeltaEngine::new(4);
    let mut standby = DeltaEngine::new(4);

    let page_a = [0u8; PAGE_SIZE];
    let d1 = primary.diff_and_commit(0, &page_a);
    standby.apply(&d1);

    // Fully random-ish page -> XOR won't be sparse -> Raw wins.
    let mut page_b = [0u8; PAGE_SIZE];
    for (i, b) in page_b.iter_mut().enumerate() {
        *b = (i * 131 + 7) as u8;
    }
    let d2 = primary.diff_and_commit(0, &page_b);
    let applied2 = standby.apply(&d2);
    assert_eq!(applied2, page_b);
}

#[test]
fn dense_delta_is_a_whole_page() {
    let mut primary = DeltaEngine::new(0);
    primary.diff_and_commit(9, &[0u8; PAGE_SIZE]);
    let d = primary.diff_and_commit(9, &[5u8; PAGE_SIZE]);
    assert!(matches!(d, PageDelta::Raw { .. }));
    assert_eq!(d.page_idx(), 9);
    assert_eq!(d.encoded_len(), PAGE_SIZE);
}

#[test]
fn unchanged_page_encodes_as_one_zero_run() {
    let mut primary = DeltaEngine::new(0);
    primary.diff_and_commit(2, &[8u8; PAGE_SIZE]);
    let d = primary.diff_and_commit(2, &[8u8; PAGE_SIZE]);
    assert_eq!(d.page_idx(), 2);
    assert_eq!(d.encoded_len(), 8);
}

#[test]
fn encoding_has_one_record_per_literal() {
    let mut page = [0u8; PAGE_SIZE];
    page[0] = 1;
    page[3] = 2;
    page[4] = 3;
    let runs = rle_encode(&page);
    assert_eq!(
        runs,
        vec![
            RunLiteral { zero_run: 0, literal: vec![1] },
            RunLiteral { zero_run: 2, literal: vec![2, 3] },
            RunLiteral { zero_run: 4091, literal: vec![] },
        ]
    );
    assert_eq!(rle_decode(&runs), page);
}

#[test]
fn decoding_cuts_off_at_the_end_of_a_page() {
    let runs = vec![RunLiteral { zero_run: 4095, literal: vec![9, 9, 9] }];
    let page = rle_decode(&runs);
    assert_eq!(page[4094], 0);
    assert_eq!(page[4095], 9);
    let past = vec![RunLiteral { zero_run: 5000, literal: vec![] }];
    assert_eq!(rle_decode(&past), [0u8; PAGE_SIZE]);
}

#[test]
fn xor_against_a_missing_page_is_against_zero() {
    let mut standby = DeltaEngine::new(0);
    let runs = vec![RunLiteral { zero_run: 1, literal: vec![6] }];
    let delta = PageDelta::Xor { page_idx: 1, runs };
    let page = standby.apply(&delta);
    assert_eq!(page[0], 0);
    assert_eq!(page[1], 6);
    // Applied once more, it undoes itself.
    assert_eq!(standby.apply(&delta), [0u8; PAGE_SIZE]);
}

#[test]
fn layout_has_one_guard_page() {
    let layout = RegionLayout::plan(1, 4097).unwrap();
    assert_eq!(layout.quota_pages, 2);
    assert_eq!(layout.quota_rounded, 8192);
    assert_eq!(layout.guard_bytes, 4096);
    assert_eq!(layout.mapped_len, 12288);
    assert!(matches!(
        RegionLayout::plan(2, 1),
        Err(MemFault::QuotaExceeded { requested: 2, quota: 1 })
    ));
}

#[test]
fn initial_size_over_quota_is_refused() {
    let refused = MmapGuardedMemory::new(4097, 4096);
    assert!(matches!(refused, Err(MemFault::QuotaExceeded { requested: 4097, quota: 4096 })));
}

#[test]
fn access_is_checked_against_the_committed_size() {
    let memory = MmapGuardedMemory::new(4096, 8192).unwrap();
    assert_eq!(memory.size_bytes(), 4096);
    assert_eq!(memory.translate(0, 4096).unwrap().len(), 4096);
    assert_eq!(memory.translate(4096, 0).unwrap().len(), 0);
    assert!(matches!(
        memory.translate(4090, 7),
        Err(MemFault::OutOfBounds { ptr: 4090, len: 7, size: 4096 })
    ));
    assert!(matches!(
        memory.translate(u32::MAX, 1),
        Err(MemFault::OutOfBounds { ptr: u32::MAX, len: 1, size: 4096 })
    ));
}

#[test]
fn loads_return_what_was_stored() {
    let mut memory = MmapGuardedMemory::new(8192, 8192).unwrap();
    memory.store(4094, &[1, 2, 3, 4]).unwrap();
    assert_eq!(memory.translate(4093, 6).unwrap(), &[0u8, 1, 2, 3, 4, 0][..]);
    assert_eq!(memory.page_bytes(1)[..3], [3, 4, 0]);
    assert!(memory.store(8190, &[1, 2, 3]).is_err());
    assert_eq!(memory.translate(8190, 2).unwrap(), &[0u8, 0][..]);
    assert!(memory.dirty_pages().is_empty());
}

#[test]
fn growth_stays_within_the_quota() {
    let mut memory = MmapGuardedMemory::new(4096, 12288).unwrap();
    assert_eq!(memory.grow(1).unwrap(), 1);
    assert_eq!(memory.size_bytes(), 8192);
    assert!(matches!(
        memory.grow(2),
        Err(MemFault::QuotaExceeded { requested: 16384, quota: 12288 })
    ));
    assert_eq!(memory.size_bytes(), 8192);
    assert_eq!(memory.grow(1).unwrap(), 2);
    assert_eq!(memory.grow(0).unwrap(), 3);
}

#[test]
fn refused_growth_reports_the_size_in_32_bits() {
    let mut bounds = MemoryBounds { size_bytes: 10, quota_bytes: 4096 };
    assert!(matches!(
        bounds.grow(0x10_0000),
        Err(MemFault::QuotaExceeded { requested: 10, quota: 4096 })
    ));
    assert_eq!(bounds.size_bytes, 10);
}

#[test]
fn dirty_pages_are_marked_and_cleared() {
    let mut memory = MmapGuardedMemory::new(4096, 65536).unwrap();
    memory.mark_dirty(3);
    memory.mark_dirty(15);
    assert_eq!(memory.dirty_pages().iter_dirty(), vec![3, 15]);
    memory.clear_dirty_pages();
    assert_eq!(memory.dirty_pages().len(), 0);
}

#[test]
fn growth_keeps_accesses() {
    let mut bounds = MemoryBounds { size_bytes: 100, quota_bytes: 8192 };
    assert_eq!(bounds.translate(90, 10).unwrap(), 90);
    assert!(bounds.translate(4100, 1).is_err());
    bounds.grow(1).unwrap();
    assert_eq!(bounds.translate(90, 10).unwrap(), 90);
    assert_eq!(bounds.translate(4100, 1).unwrap(), 4100);
}

#[test]
fn other_pages_do_not_matter_to_an_unchanged_page() {
    let mut engine = DeltaEngine::new(1);
    engine.diff_and_commit(0, &[1u8; PAGE_SIZE]);
    engine.diff_and_commit(30, &[2u8; PAGE_SIZE]);
    engine.apply(&PageDelta::Raw { page_idx: 31, bytes: [3u8; PAGE_SIZE] });
    let unchanged = engine.diff_and_commit(0, &[1u8; PAGE_SIZE]);
    assert!(matches!(unchanged, PageDelta::Xor { page_idx: 0, .. }));
    assert_eq!(unchanged.encoded_len(), 8);
    assert_eq!(engine.diff_and_commit(31, &[3u8; PAGE_SIZE]).encoded_len(), 8);
}

#[test]
fn refused_allocation_is_a_failed_mapping() {
    let refused = MmapGuardedMemory::in_allocation(4096, 8192, None);
    match refused {
        Err(MemFault::MmapFailed(cause)) => assert_eq!(cause, "cannot allocate memory"),
        _ => unreachable!(),
    }
    let over = MmapGuardedMemory::in_allocation(8193, 8192, None);
    assert!(matches!(over, Err(MemFault::QuotaExceeded { requested: 8193, quota: 8192 })));
    let memory = MmapGuardedMemory::in_allocation(1, 4097, Some(Vec::new())).unwrap();
    assert_eq!(memory.size_bytes(), 1);
    assert_eq!(memory.page_bytes(1), &[0u8; PAGE_SIZE][..]);
}
