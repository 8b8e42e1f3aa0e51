use marpii_rmg::res_states::{AnyHandle, AnyResKey, BufferKey, QueueOwnership, ResBuffer};
use marpii_rmg::track::{Execution, Guard, Track, TrackId, Tracks, QUEUE_COMPUTE, QUEUE_GRAPHICS, QUEUE_TRANSFER};

#[test]
fn track_for_usage_prefers_exact_then_fewest_extra() {
    let all = QUEUE_GRAPHICS | QUEUE_COMPUTE | QUEUE_TRANSFER;
    let tracks = Tracks::new(&vec![(0, all), (1, QUEUE_COMPUTE), (2, QUEUE_TRANSFER)]);
    assert_eq!(tracks.track_for_usage(QUEUE_COMPUTE), Some(TrackId(QUEUE_COMPUTE)));
    assert_eq!(tracks.track_for_usage(QUEUE_TRANSFER), Some(TrackId(QUEUE_TRANSFER)));
    assert_eq!(tracks.track_for_usage(QUEUE_GRAPHICS), Some(TrackId(all)));
    assert_eq!(tracks.track_for_usage(QUEUE_COMPUTE | QUEUE_TRANSFER), Some(TrackId(all)));
    assert_eq!(tracks.track_for_usage(0x8), None);
    assert_eq!(tracks.queue_idx_to_trackid(1), Some(TrackId(QUEUE_COMPUTE)));
    assert_eq!(tracks.queue_idx_to_trackid(7), None);
    assert_eq!(tracks.trackid_to_queue_idx(TrackId(QUEUE_TRANSFER)), 2);
}

#[test]
fn same_flags_keep_first_family() {
    let tracks = Tracks::new(&vec![(3, QUEUE_COMPUTE), (4, QUEUE_COMPUTE)]);
    assert_eq!(tracks.trackid_to_queue_idx(TrackId(QUEUE_COMPUTE)), 3);
}

#[test]
fn guards_count_up_per_track() {
    let mut t = Track::new(0, QUEUE_COMPUTE);
    let g1 = t.next_guard();
    let g2 = t.next_guard();
    assert_eq!(g1.track, TrackId(QUEUE_COMPUTE));
    assert_eq!(g2.wait_value(), g1.wait_value() + 1);
    assert_eq!(g2.guard_before(), g1);
    let zero = Guard { track: TrackId(QUEUE_COMPUTE), target_value: 0 };
    assert_eq!(zero.guard_before(), zero);
}

#[test]
fn guard_expiry() {
    let tracks = Tracks::new(&vec![(0, QUEUE_COMPUTE)]);
    let g = Guard { track: TrackId(QUEUE_COMPUTE), target_value: 5 };
    assert!(!g.expired(&tracks, 4));
    assert!(g.expired(&tracks, 5));
    assert!(tracks.guard_finished(&g, 6));
    let other = Guard { track: TrackId(QUEUE_GRAPHICS), target_value: 5 };
    assert!(other.expired(&tracks, 0));
    assert!(!other.is_expired(&tracks, 10));
    assert!(!g.is_expired(&tracks, 4));
    assert!(g.is_expired(&tracks, 5));
    assert!(g.is_expired(&tracks, 9));
}

#[test]
fn finished_executions_are_dropped() {
    let mut t = Track::new(0, QUEUE_COMPUTE);
    let on = |v: u64| Guard { track: TrackId(QUEUE_COMPUTE), target_value: v };
    t.inflight_executions = vec![
        Execution { id: 1, guard: on(2) },
        Execution { id: 2, guard: on(5) },
        Execution { id: 3, guard: on(3) },
    ];
    t.tick_frame(3);
    assert_eq!(t.inflight_executions, vec![Execution { id: 2, guard: on(5) }, Execution { id: 3, guard: on(3) }]);
    assert_eq!(t.wait_for_inflights(), 5);
    assert!(t.inflight_executions.is_empty());
    assert_eq!(t.wait_for_inflights(), 0);
}

#[test]
fn resource_state_flags() {
    let buf = ResBuffer { usage: 0x20, ownership: QueueOwnership::Uninitialized, mask: 0, guard: None, descriptor_handle: None };
    assert!(buf.is_storage_buffer());
    assert!(!ResBuffer { usage: 0x10, ..buf }.is_storage_buffer());
    let key = AnyResKey::Buffer(BufferKey(3));
    assert!(!AnyHandle::from(key).has_atomic_ref());
    assert!(AnyHandle { atomic_ref: Some(9), key }.has_atomic_ref());
    assert_eq!(QueueOwnership::Owned(4).owner(), Some(4));
    assert_eq!(QueueOwnership::Released { src_family: 1, dst_family: 2 }.owner(), None);
    assert!(QueueOwnership::Released { src_family: 1, dst_family: 2 }.is_initalised());
    assert!(!QueueOwnership::Uninitialized.is_initalised());
}
