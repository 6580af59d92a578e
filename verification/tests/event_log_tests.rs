use chronos::clock::LogicalClock;
use chronos::event_log::{
    EventRecorder, NonDeterminismSource, RecorderMode, ReplayEntry, ReplayError,
};

#[test]
fn record_then_replay_reproduces_clock_values() {
    let mut recorder = EventRecorder::new(RecorderMode::Record);
    let mut fake_time = 1000u64;
    let mut real_now = || {
        fake_time += 7;
        fake_time
    };
    let v1 = recorder.wall_clock_now(1, &mut real_now).unwrap();
    let v2 = recorder.wall_clock_now(1, &mut real_now).unwrap();
    assert_ne!(v1, v2);

    let log = recorder.export_log();
    let mut replay = EventRecorder::from_replay_log(log);
    // A "different host" real_now closure that would diverge if used:
    // replay must ignore it entirely.
    let mut divergent_now = || 999_999u64;
    let r1 = replay.wall_clock_now(1, &mut divergent_now).unwrap();
    let r2 = replay.wall_clock_now(1, &mut divergent_now).unwrap();
    assert_eq!((v1, v2), (r1, r2));
}

#[test]
fn replay_missing_entry_is_a_hard_error_not_silent_fallback() {
    let mut replay = EventRecorder::from_replay_log(vec![]);
    let mut real_now = || 42u64;
    let err = replay.wall_clock_now(0, &mut real_now);
    assert!(matches!(err, Err(ReplayError::MissingEntry { .. })));
}

#[test]
fn ordinals_reset_across_ticks() {
    let mut recorder = EventRecorder::new(RecorderMode::Record);
    let mut real_now = || 1u64;
    recorder.wall_clock_now(1, &mut real_now).unwrap();
    recorder.wall_clock_now(1, &mut real_now).unwrap();
    recorder.wall_clock_now(2, &mut real_now).unwrap();
    // tick 2's first call should reuse ordinal 0, i.e. not collide
    // with tick 1's entries (different tick in the key).
    assert_eq!(recorder.export_log().len(), 3);
}

#[test]
fn recorded_values_have_tick_and_ordinal() {
    let mut recorder = EventRecorder::new(RecorderMode::Record);
    let mut buf = [0u8; 3];
    recorder.wall_clock_now(1, || 5).unwrap();
    recorder.random_bytes(1, &mut buf, |b: &mut [u8]| b.copy_from_slice(&[7, 8, 9])).unwrap();
    recorder.wall_clock_now(u64::MAX, || 6).unwrap();
    assert_eq!(buf, [7, 8, 9]);
    let mut log = recorder.export_log();
    log.sort_by_key(|entry| (entry.0, entry.1));
    assert_eq!(
        log,
        vec![
            (1, 0, ReplayEntry::Clock(5)),
            (1, 1, ReplayEntry::Random(vec![7, 8, 9])),
            (u64::MAX, 0, ReplayEntry::Clock(6)),
        ]
    );
}

#[test]
fn random_bytes_are_replayed_and_never_fetched() {
    let mut replay = EventRecorder::from_replay_log(vec![
        (4, 0, ReplayEntry::Random(vec![1, 2])),
        (4, 1, ReplayEntry::Random(vec![3])),
        (4, 2, ReplayEntry::Clock(4)),
    ]);
    let mut buf = [9u8; 2];
    replay.random_bytes(4, &mut buf, |_: &mut [u8]| panic!("fetched")).unwrap();
    assert_eq!(buf, [1, 2]);
    let short = replay.random_bytes(4, &mut buf, |_: &mut [u8]| panic!("fetched"));
    assert_eq!(short, Err(ReplayError::TypeMismatch { tick: 4, ordinal: 1 }));
    let clock = replay.random_bytes(4, &mut buf, |_: &mut [u8]| panic!("fetched"));
    assert_eq!(clock, Err(ReplayError::TypeMismatch { tick: 4, ordinal: 2 }));
    let missing = replay.random_bytes(4, &mut buf, |_: &mut [u8]| panic!("fetched"));
    assert_eq!(missing, Err(ReplayError::MissingEntry { tick: 4, ordinal: 3 }));
    assert_eq!(buf, [1, 2]);
}

#[test]
fn clock_replay_of_random_bytes_is_a_mismatch() {
    let mut replay = EventRecorder::from_replay_log(vec![(1, 0, ReplayEntry::Random(vec![]))]);
    let now = replay.wall_clock_now(1, || 1);
    assert_eq!(now, Err(ReplayError::TypeMismatch { tick: 1, ordinal: 0 }));
}

#[test]
fn last_entry_with_a_key_counts() {
    let mut replay = EventRecorder::from_replay_log(vec![
        (1, 0, ReplayEntry::Clock(10)),
        (1, 0, ReplayEntry::Clock(11)),
    ]);
    assert_eq!(replay.export_log(), vec![(1, 0, ReplayEntry::Clock(11))]);
    assert_eq!(replay.wall_clock_now(1, || 0), Ok(11));
}

#[test]
fn run_in_tick_order_replays() {
    let ticks = [0u64, 0, 3, 3, 3, 8];
    let mut recorder = EventRecorder::new(RecorderMode::Record);
    let mut recorded = Vec::new();
    for (i, tick) in ticks.iter().enumerate() {
        recorded.push(recorder.wall_clock_now(*tick, || 100 + i as u64).unwrap());
    }
    let mut replay = EventRecorder::from_replay_log(recorder.export_log());
    let mut replayed = Vec::new();
    for tick in ticks {
        replayed.push(replay.wall_clock_now(tick, || 0).unwrap());
    }
    assert_eq!(recorded, vec![100, 101, 102, 103, 104, 105]);
    assert_eq!(replayed, recorded);
}

#[test]
fn revisited_tick_overwrites_its_entries() {
    let mut recorder = EventRecorder::new(RecorderMode::Record);
    for (tick, value) in [(1u64, 10u64), (2, 20), (1, 30)] {
        recorder.wall_clock_now(tick, || value).unwrap();
    }
    assert_eq!(recorder.export_log().len(), 2);
    let mut replay = EventRecorder::from_replay_log(recorder.export_log());
    assert_eq!(replay.wall_clock_now(1, || 0), Ok(30));
}

#[test]
fn clock_advances_by_one() {
    let mut clock = LogicalClock::new();
    assert_eq!(clock.snapshot(), 0);
    assert_eq!(clock.advance(), 1);
    assert_eq!(clock.advance(), 2);
    assert_eq!(clock.snapshot(), 2);
    assert_eq!(LogicalClock::default().snapshot(), 0);
}

#[test]
fn log_is_append_only_in_tick_order() {
    let mut recorder = EventRecorder::new(RecorderMode::Record);
    let mut expected = Vec::new();
    for (tick, ordinal, value) in [(1u64, 0u64, 10u64), (1, 1, 11), (4, 0, 12), (4, 1, 13)] {
        recorder.wall_clock_now(tick, || value).unwrap();
        expected.push((tick, ordinal, ReplayEntry::Clock(value)));
        let mut log = recorder.export_log();
        log.sort_by_key(|entry| (entry.0, entry.1));
        assert_eq!(log, expected);
    }
}

#[test]
fn mixed_run_replays() {
    let mut recorder = EventRecorder::new(RecorderMode::Record);
    let mut recorded = [0u8; 4];
    assert_eq!(recorder.wall_clock_now(2, || 50), Ok(50));
    recorder.random_bytes(2, &mut recorded, |b: &mut [u8]| b.fill(6)).unwrap();
    assert_eq!(recorder.wall_clock_now(3, || 51), Ok(51));
    let mut replay = EventRecorder::from_replay_log(recorder.export_log());
    let mut replayed = [0u8; 4];
    assert_eq!(replay.wall_clock_now(2, || panic!("fetched")), Ok(50));
    replay.random_bytes(2, &mut replayed, |_: &mut [u8]| panic!("fetched")).unwrap();
    assert_eq!(replayed, recorded);
    assert_eq!(replay.wall_clock_now(3, || panic!("fetched")), Ok(51));
}
