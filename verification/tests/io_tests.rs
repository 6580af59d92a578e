use chronos::io::{
    completion_of, completions_of, pack_user_data, unpack_user_data, FdTable, IoCompletion,
    IoError, IoSubsystem, PendingCompletions, StubIoSubsystem,
};

#[test]
fn fd_table_isolates_guest_fds() {
    let mut table = FdTable::new();
    let guest_fd_a = table.register(10);
    let guest_fd_b = table.register(11);
    assert_ne!(guest_fd_a, guest_fd_b);
    assert_eq!(table.resolve(guest_fd_a).unwrap(), 10);
    assert_eq!(table.resolve(guest_fd_b).unwrap(), 11);
    assert!(table.resolve(9999).is_err());
}

#[test]
fn pending_completions_drain_in_order() {
    let mut pending = PendingCompletions::new();
    for i in 0..3 {
        pending.push(IoCompletion { cell: 0, guest_fd: 3, request_id: i, result: 4096 });
    }
    let drained = pending.drain_for_dispatch();
    let ids: Vec<u64> = drained.iter().map(|c| c.request_id).collect();
    assert_eq!(ids, vec![0, 1, 2]);
    assert!(pending.is_empty());
}

#[test]
fn stub_subsystem_round_trips_a_completion() {
    let mut io = StubIoSubsystem::new();
    io.submit_read_fixed(0, 3, 5, 0, 0, 4096, 42).unwrap();
    let completions = io.poll_completions();
    assert_eq!(completions.len(), 1);
    assert_eq!(completions[0].request_id, 42);
    assert_eq!(completions[0].result, 4096);
}

#[test]
fn user_data_packing_round_trips() {
    let (cell, guest_fd, request_id) = (12345u64, 99u32, 555u64);
    let packed = pack_user_data(cell, guest_fd, request_id);
    let (c2, g2, r2) = unpack_user_data(packed);
    assert_eq!((cell, guest_fd, request_id), (c2, g2, r2));
}

#[test]
fn user_data_has_a_fixed_layout() {
    assert_eq!(pack_user_data(1, 1, 1), 0x100_0010_0001);
    let packed = pack_user_data(0xFF_FFFF, 0xF_FFFF, 0xF_FFFF);
    assert_eq!(packed, u64::MAX);
    assert_eq!(unpack_user_data(u64::MAX), (0xFF_FFFF, 0xF_FFFF, 0xF_FFFF));
    let completion = completion_of(0x200_0030_0004, -5);
    assert_eq!(completion, IoCompletion { cell: 2, guest_fd: 3, request_id: 4, result: -5 });
}

#[test]
fn fds_start_behind_the_standard_streams_and_are_not_reused() {
    let mut table = FdTable::new();
    let a = table.register(7);
    assert_eq!(a, 3);
    assert_eq!(table.close(a), Some(7));
    assert_eq!(table.close(a), None);
    assert!(matches!(table.resolve(a), Err(IoError::UnknownFd(3))));
    assert_eq!(table.register(8), 4);
    assert_eq!(FdTable::default().register(1), 0);
}

#[test]
fn stub_completes_every_request_once() {
    let mut io = StubIoSubsystem::default();
    io.register_fixed_buffer(0, &mut [0u8; 8]).unwrap();
    assert!(io.poll_completions().is_empty());
    io.submit_write_fixed(9, 4, 5, 0, 0, 17, 1).unwrap();
    io.submit_read_fixed(9, 4, 5, 0, 0, u32::MAX, 2).unwrap();
    let completions = io.poll_completions();
    assert_eq!(
        completions,
        vec![
            IoCompletion { cell: 9, guest_fd: 4, request_id: 1, result: 17 },
            IoCompletion { cell: 9, guest_fd: 4, request_id: 2, result: -1 },
        ]
    );
    assert!(io.poll_completions().is_empty());
    assert!(PendingCompletions::default().is_empty());
}

#[test]
fn completions_keep_the_order_of_the_queue() {
    let owners = [(7u64, 3u32, 1u64, 512i32), (1, 9, 2, -9), (7, 3, 0, 0)];
    let reported: Vec<(u64, i32)> =
        owners.iter().map(|o| (pack_user_data(o.0, o.1, o.2), o.3)).collect();
    let expected: Vec<IoCompletion> = owners
        .iter()
        .map(|o| IoCompletion { cell: o.0, guest_fd: o.1, request_id: o.2, result: o.3 })
        .collect();
    assert_eq!(completions_of(&reported), expected);
    assert!(completions_of(&[]).is_empty());
}

#[test]
fn closed_fd_stays_closed() {
    let mut table = FdTable::new();
    let a = table.register(10);
    table.close(a);
    for host_fd in 20..25 {
        let fd = table.register(host_fd);
        if host_fd % 2 == 0 {
            table.close(fd);
        }
    }
    assert!(matches!(table.resolve(a), Err(IoError::UnknownFd(3))));
}
