use chronos::guarded_memory::PAGE_SIZE;
use chronos::replicate::{ApplyError, DeltaRing, RingError, StandbyApplyLoop, TickBatch};
use chronos::{DeltaEngine, PageDelta};

#[test]
fn push_and_drain_preserves_order() {
    let mut ring = DeltaRing::new(8);
    for tick in 1..=3u64 {
        ring.push(TickBatch { tick, deltas: vec![] }).unwrap();
    }
    let drained = ring.drain();
    let ticks: Vec<u64> = drained.iter().map(|b| b.tick).collect();
    assert_eq!(ticks, vec![1, 2, 3]);
}

#[test]
fn full_ring_surfaces_backpressure() {
    let mut ring = DeltaRing::new(1);
    ring.push(TickBatch { tick: 1, deltas: vec![] }).unwrap();
    let err = ring.push(TickBatch { tick: 2, deltas: vec![] });
    assert!(matches!(err, Err(RingError::Full(_))));
}

#[test]
fn standby_rejects_out_of_order_batches() {
    let mut standby = StandbyApplyLoop::new(4);
    let mut page = [0u8; PAGE_SIZE];
    page[0] = 1;
    let batch1 = TickBatch {
        tick: 5,
        deltas: vec![PageDelta::Raw { page_idx: 0, bytes: page }],
    };
    standby.apply_batch(&batch1).unwrap();

    let batch_stale = TickBatch { tick: 3, deltas: vec![] };
    let err = standby.apply_batch(&batch_stale);
    assert!(matches!(err, Err(ApplyError::OutOfOrder { .. })));
}

#[test]
fn refused_batch_leaves_the_ring_as_it_is() {
    let mut ring = DeltaRing::new(2);
    assert_eq!(ring.last_pushed_tick(), 0);
    assert!(ring.drain().is_empty());
    ring.push(TickBatch { tick: 4, deltas: vec![] }).unwrap();
    ring.push(TickBatch { tick: 6, deltas: vec![] }).unwrap();
    assert_eq!(ring.push(TickBatch { tick: 7, deltas: vec![] }), Err(RingError::Full(2)));
    assert_eq!(ring.last_pushed_tick(), 6);
    let ticks: Vec<u64> = ring.drain().iter().map(|b| b.tick).collect();
    assert_eq!(ticks, vec![4, 6]);
    ring.push(TickBatch { tick: 8, deltas: vec![] }).unwrap();
    assert_eq!(ring.drain().len(), 1);
}

#[test]
fn drained_batches_carry_their_deltas() {
    let mut ring = DeltaRing::new(3);
    let delta = PageDelta::Raw { page_idx: 9, bytes: [3u8; PAGE_SIZE] };
    ring.push(TickBatch { tick: 1, deltas: vec![delta.clone()] }).unwrap();
    assert_eq!(ring.drain()[0].deltas, vec![delta]);
}

#[test]
fn producer_handle_pushes_to_its_ring() {
    let mut ring = DeltaRing::new(1);
    let mut producer = ring.producer_handle();
    producer.push(TickBatch { tick: 3, deltas: vec![] }).unwrap();
    assert_eq!(producer.push(TickBatch { tick: 4, deltas: vec![] }), Err(RingError::Full(1)));
    assert_eq!(ring.last_pushed_tick(), 3);
    assert_eq!(ring.drain().len(), 1);
}

#[test]
fn standby_takes_ticks_upwards_only() {
    let mut standby = StandbyApplyLoop::new(0);
    assert_eq!(standby.last_applied_tick(), 0);
    standby.apply_batch(&TickBatch { tick: 0, deltas: vec![] }).unwrap();
    assert_eq!(standby.last_applied_tick(), 0);
    let zero = standby.apply_batch(&TickBatch { tick: 0, deltas: vec![] });
    assert_eq!(zero, Err(ApplyError::OutOfOrder { expected_after: 0, got: 0 }));
    standby.apply_batch(&TickBatch { tick: 2, deltas: vec![] }).unwrap();
    let again = standby.apply_batch(&TickBatch { tick: 2, deltas: vec![] });
    assert_eq!(again, Err(ApplyError::OutOfOrder { expected_after: 2, got: 2 }));
    assert_eq!(standby.last_applied_tick(), 2);
}

#[test]
fn standby_follows_a_stream_of_deltas() {
    let mut primary = DeltaEngine::new(2);
    let mut standby = DeltaEngine::new(0);
    let mut page = [0u8; PAGE_SIZE];
    for step in 0..5usize {
        page[step * 7] = step as u8 + 1;
        let delta = primary.diff_and_commit(3, &page);
        assert_eq!(matches!(delta, PageDelta::Raw { .. }), step == 0);
        assert_eq!(standby.apply(&delta), page);
    }
}

#[test]
fn batching_does_not_matter() {
    let mut primary = DeltaEngine::new(1);
    let mut deltas = Vec::new();
    let mut page = [0u8; PAGE_SIZE];
    for step in 0..4u8 {
        page[step as usize] = step + 1;
        deltas.push(primary.diff_and_commit(0, &page));
    }
    let mut whole = StandbyApplyLoop::new(1);
    whole.apply_batch(&TickBatch { tick: 9, deltas: deltas.clone() }).unwrap();
    let mut cut = StandbyApplyLoop::new(1);
    for (i, delta) in deltas.iter().enumerate() {
        let batch = TickBatch { tick: 6 + i as u64, deltas: vec![delta.clone()] };
        cut.apply_batch(&batch).unwrap();
    }
    assert_eq!(whole.last_applied_tick(), 9);
    assert_eq!(cut.last_applied_tick(), 9);
}

#[test]
fn last_pushed_tick_is_the_highest() {
    let mut ring = DeltaRing::new(8);
    ring.push(TickBatch { tick: 5, deltas: vec![] }).unwrap();
    ring.push(TickBatch { tick: 3, deltas: vec![] }).unwrap();
    assert_eq!(ring.last_pushed_tick(), 5);
    ring.producer_handle().push(TickBatch { tick: 4, deltas: vec![] }).unwrap();
    assert_eq!(ring.last_pushed_tick(), 5);
    ring.producer_handle().push(TickBatch { tick: 6, deltas: vec![] }).unwrap();
    assert_eq!(ring.last_pushed_tick(), 6);
}

#[test]
fn standby_takes_record_ticks() {
    let mut standby = StandbyApplyLoop::new(0);
    let mut highest = 0;
    for (tick, taken) in [(4u64, true), (2, false), (4, false), (7, true), (6, false), (8, true)] {
        let applied = standby.apply_batch(&TickBatch { tick, deltas: vec![] });
        if taken {
            assert_eq!(applied, Ok(()));
            highest = tick;
        } else {
            assert_eq!(applied, Err(ApplyError::OutOfOrder { expected_after: highest, got: tick }));
        }
        assert_eq!(standby.last_applied_tick(), highest);
    }
}
