use marpii_rmg::bindless::{BindlessDeviceInfo, IMAGE_USAGE_STORAGE};
use marpii_rmg::error::RecordError;
use marpii_rmg::executor::{max_wait_per_track, Executor, ReleaseOp};
use marpii_rmg::recorder::Recorder;
use marpii_rmg::registry::ResourceRegistry;
use marpii_rmg::res_states::{AnyHandle, AnyResKey, QueueOwnership};
use marpii_rmg::resources::Resources;
use marpii_rmg::schedule::TaskSchedule;
use marpii_rmg::track::{Guard, TrackId, Tracks, QUEUE_COMPUTE, QUEUE_GRAPHICS, QUEUE_TRANSFER};
use marpii_rmg::transfer::QueueTransfer;

const ALL: u32 = QUEUE_GRAPHICS | QUEUE_COMPUTE | QUEUE_TRANSFER;

fn device() -> BindlessDeviceInfo {
    BindlessDeviceInfo {
        shader_storage_image_array_dynamic_indexing: 1,
        shader_storage_buffer_array_dynamic_indexing: 1,
        shader_uniform_buffer_array_dynamic_indexing: 1,
        shader_sampled_image_array_dynamic_indexing: 1,
        descriptor_indexing: 1,
        descriptor_binding_sampled_image_update_after_bind: 1,
        descriptor_binding_storage_image_update_after_bind: 1,
        descriptor_binding_storage_buffer_update_after_bind: 1,
        descriptor_binding_partially_bound: 1,
        descriptor_binding_variable_descriptor_count: 1,
        shader_storage_buffer_array_non_uniform_indexing: 1,
        shader_storage_image_array_non_uniform_indexing: 1,
        shader_sampled_image_array_non_uniform_indexing: 1,
        max_bound_descriptor_sets: 8,
        max_descriptor_set_sampled_images: 16,
        max_descriptor_set_storage_images: 16,
        max_descriptor_set_storage_buffers: 16,
        max_descriptor_set_samplers: 16,
        max_push_constants_size: 128,
    }
}

fn tracks() -> Tracks {
    Tracks::new(&vec![(0, ALL), (1, QUEUE_COMPUTE)])
}

#[test]
fn import_from_other_family_is_released_then_acquired() {
    let mut tracks = tracks();
    let mut res = Resources::new(&device()).ok().unwrap();
    let buf = res.import_buffer(&tracks, 0x20, Some(1), None).unwrap();
    let key = AnyResKey::Buffer(buf);
    let mut reg = ResourceRegistry::new();
    reg.request_buffer(buf, 0, 0).unwrap();
    let plan = Recorder::new().add_task(1, QUEUE_GRAPHICS, &reg).execute(&mut res, &mut tracks).unwrap();

    // The owning compute track releases the buffer to the graphics track ...
    assert_eq!(
        plan.releases,
        vec![ReleaseOp { current_owner: TrackId(QUEUE_COMPUTE), destination_owner: TrackId(ALL), res: key }]
    );
    assert!(plan.release_waits.is_empty());
    let release_guard = Guard { track: TrackId(QUEUE_COMPUTE), target_value: 1 };
    assert_eq!(plan.release_guards, vec![(TrackId(QUEUE_COMPUTE), release_guard)]);
    // ... and the importing frame acquires it, waiting for the release.
    let exec_guard = Guard { track: TrackId(ALL), target_value: 1 };
    assert_eq!(plan.order, vec![(TrackId(ALL), 0)]);
    assert_eq!(
        plan.frames,
        vec![(exec_guard, vec![QueueTransfer { res: key, src_family: 1, dst_family: 0 }], vec![release_guard])]
    );
    let st = res.get_buffer_state(buf);
    assert_eq!(st.ownership, QueueOwnership::Owned(0));
    assert_eq!(st.guard, Some(exec_guard));
    assert_eq!(key.current_owner(&res, &tracks), Some(TrackId(ALL)));
    assert_eq!(tracks.next_guard_for(TrackId(ALL)).target_value, 2);
}

#[test]
fn first_use_takes_resources_over() {
    let mut tracks = tracks();
    let mut res = Resources::new(&device()).ok().unwrap();
    let buf = res.add_buffer(0x20);
    let img = res.add_image(IMAGE_USAGE_STORAGE);
    let mut reg = ResourceRegistry::new();
    reg.request_buffer(buf, 0, 0).unwrap();
    reg.request_image(img, 0, 0, 0).unwrap();
    let plan = Recorder::new().add_task(1, QUEUE_GRAPHICS, &reg).execute(&mut res, &mut tracks).unwrap();
    assert!(plan.releases.is_empty() && plan.release_waits.is_empty() && plan.release_guards.is_empty());
    let g = Guard { track: TrackId(ALL), target_value: 1 };
    assert_eq!(plan.frames, vec![(g, vec![], vec![])]);
    assert_eq!(res.get_image_state(img).ownership, QueueOwnership::Owned(0));
    assert_eq!(res.get_buffer_state(buf).guard, Some(g));
    // The compute track did not allocate a guard.
    assert_eq!(tracks.next_guard_for(TrackId(QUEUE_COMPUTE)).target_value, 1);
    // Running the release step again finds nothing to do.
    let exec = Executor::new(plan.schedule);
    let (ops, waits, rg) = exec.schedule_import_release_frame(&mut res, &mut tracks).unwrap();
    assert!(ops.is_empty() && waits.is_empty() && rg.is_empty());
}

#[test]
fn owned_resource_is_not_taken_over_again() {
    let mut tracks = tracks();
    let mut res = Resources::new(&device()).ok().unwrap();
    let buf = res.import_buffer(&tracks, 0x20, Some(0), None).unwrap();
    let mut reg = ResourceRegistry::new();
    reg.request_buffer(buf, 0, 0).unwrap();
    let r = Recorder::new().add_task(1, QUEUE_GRAPHICS, &reg).execute(&mut res, &mut tracks);
    assert_eq!(
        r.err(),
        Some(RecordError::AcquireRecord(AnyHandle { atomic_ref: None, key: AnyResKey::Buffer(buf) }, 0))
    );
    // The frame's guard was allocated before the failure.
    assert_eq!(tracks.next_guard_for(TrackId(ALL)).target_value, 2);
}

#[test]
fn release_from_family_without_track_fails() {
    let mut tracks = tracks();
    let mut res = Resources::new(&device()).ok().unwrap();
    let img = res.add_image(IMAGE_USAGE_STORAGE);
    let key = AnyResKey::Image(img);
    // Owned by queue family 5, for which there is no track.
    let g = Guard { track: TrackId(QUEUE_COMPUTE), target_value: 9 };
    res.acquire(key, 5, g).unwrap();
    let mut reg = ResourceRegistry::new();
    reg.request_image(img, 0, 0, 0).unwrap();
    let r = Recorder::new().add_task(1, QUEUE_COMPUTE, &reg).execute(&mut res, &mut tracks);
    assert_eq!(r.err(), Some(RecordError::NoSuchTrack(5)));
    // Nothing changed.
    assert_eq!(res.get_image_state(img).ownership, QueueOwnership::Owned(5));
    assert_eq!(res.get_image_state(img).guard, Some(g));
    assert_eq!(tracks.next_guard_for(TrackId(QUEUE_COMPUTE)).target_value, 1);
}

#[test]
fn dependency_between_tracks_is_taken_over_by_the_second() {
    let tracks = tracks();
    let mut res = Resources::new(&device()).ok().unwrap();
    let img = res.add_image(IMAGE_USAGE_STORAGE);
    let key = AnyResKey::Image(img);
    let mut a = ResourceRegistry::new();
    a.request_image(img, 0, 0, 0).unwrap();
    let mut b = ResourceRegistry::new();
    b.request_image(img, 0, 0, 0).unwrap();
    let rec = Recorder::new().add_task(1, QUEUE_COMPUTE, &a).add_task(2, QUEUE_GRAPHICS, &b);
    let schedule = TaskSchedule::new_from_tasks(&tracks, rec.records).ok().unwrap();
    let exec = Executor::new(schedule);
    assert_eq!(exec.acquire_list(QUEUE_COMPUTE, 0), vec![key]);
    assert_eq!(exec.acquire_list(ALL, 0), vec![key]);
    assert!(exec.has_executable());
    assert!(!exec.is_executed(TrackId(QUEUE_COMPUTE), 0));
    assert_eq!(exec.select_next_frame(), Ok((TrackId(QUEUE_COMPUTE), 0)));
}

#[test]
fn second_track_finds_the_resource_still_owned() {
    let mut tracks = tracks();
    let mut res = Resources::new(&device()).ok().unwrap();
    let img = res.add_image(IMAGE_USAGE_STORAGE);
    let key = AnyResKey::Image(img);
    let mut a = ResourceRegistry::new();
    a.request_image(img, 0, 0, 0).unwrap();
    let mut b = ResourceRegistry::new();
    b.request_image(img, 0, 0, 0).unwrap();
    let r = Recorder::new()
        .add_task(1, QUEUE_COMPUTE, &a)
        .add_task(2, QUEUE_GRAPHICS, &b)
        .execute(&mut res, &mut tracks);
    // The compute frame took the image over; the graphics frame finds it
    // owned by the compute family, which never released it.
    assert_eq!(r.err(), Some(RecordError::AcquireRecord(AnyHandle { atomic_ref: None, key }, 0)));
    assert_eq!(res.get_image_state(img).ownership, QueueOwnership::Owned(1));
}

#[test]
fn latest_wait_value_per_track() {
    let c = TrackId(QUEUE_COMPUTE);
    let g = TrackId(ALL);
    let guards = vec![
        Guard { track: c, target_value: 3 },
        Guard { track: g, target_value: 5 },
        Guard { track: c, target_value: 7 },
        Guard { track: c, target_value: 2 },
    ];
    let mut waits = max_wait_per_track(&guards);
    waits.sort_by_key(|p| p.0 .0);
    assert_eq!(waits, vec![(c, 7), (g, 5)]);
    assert!(max_wait_per_track(&vec![]).is_empty());
}

#[test]
fn frame_is_prepared_with_a_fresh_guard() {
    let mut tracks = tracks();
    let mut res = Resources::new(&device()).ok().unwrap();
    let img = res.add_image(IMAGE_USAGE_STORAGE);
    let mut reg = ResourceRegistry::new();
    reg.request_image(img, 0, 0, 0).unwrap();
    let rec = Recorder::new().add_task(1, QUEUE_COMPUTE, &reg);
    let schedule = TaskSchedule::new_from_tasks(&tracks, rec.records).ok().unwrap();
    let exec = Executor::new(schedule);
    let next = Guard { track: TrackId(QUEUE_COMPUTE), target_value: 1 };
    assert!(exec.import_acquire_ready(&res, &tracks, TrackId(QUEUE_COMPUTE), 0, next));
    let (guard, transfers, waits) = exec.schedule_frame(&mut res, &mut tracks, TrackId(QUEUE_COMPUTE), 0).unwrap();
    assert_eq!(guard, next);
    // An uninitialised image is taken over without a transfer.
    assert!(transfers.is_empty() && waits.is_empty());
    assert_eq!(res.get_image_state(img).ownership, QueueOwnership::Owned(1));
    assert_eq!(res.get_image_state(img).guard, Some(guard));
    assert_eq!(tracks.next_guard_for(TrackId(QUEUE_COMPUTE)).target_value, 2);
    // Preparing the same frame again finds the image owned already.
    assert_eq!(
        exec.schedule_frame(&mut res, &mut tracks, TrackId(QUEUE_COMPUTE), 0),
        Err(RecordError::AcquireRecord(AnyHandle { atomic_ref: None, key: AnyResKey::Image(img) }, 1))
    );
}

#[test]
fn release_to_another_family_is_not_ready() {
    let tracks = tracks();
    let mut res = Resources::new(&device()).ok().unwrap();
    let img = res.add_image(IMAGE_USAGE_STORAGE);
    let key = AnyResKey::Image(img);
    res.acquire(key, 0, Guard { track: TrackId(ALL), target_value: 1 }).unwrap();
    // Released from family 0 to family 1.
    let op = ReleaseOp { current_owner: TrackId(ALL), destination_owner: TrackId(QUEUE_COMPUTE), res: key };
    res.release_all(&vec![op], &tracks).unwrap();
    assert_eq!(res.get_image_state(img).ownership, QueueOwnership::Released { src_family: 0, dst_family: 1 });
    let mut reg = ResourceRegistry::new();
    reg.request_image(img, 0, 0, 0).unwrap();
    let rec = Recorder::new().add_task(1, QUEUE_GRAPHICS, &reg);
    let exec = Executor::new(TaskSchedule::new_from_tasks(&tracks, rec.records).ok().unwrap());
    let g = Guard { track: TrackId(ALL), target_value: 1 };
    // The frame on family 0 cannot take over what was released to family 1.
    assert!(!exec.import_acquire_ready(&res, &tracks, TrackId(ALL), 0, g));
    assert!(!res.acquire_all_is_ready(&vec![key], 0, g));
    assert!(res.acquire_all_is_ready(&vec![key], 1, g));
}

#[test]
fn recordings_follow_each_other_without_leaving_releases() {
    let mut tracks = tracks();
    let mut res = Resources::new(&device()).ok().unwrap();
    let buf = res.import_buffer(&tracks, 0x20, Some(1), None).unwrap();
    let mut reg = ResourceRegistry::new();
    reg.request_buffer(buf, 0, 0).unwrap();
    Recorder::new().add_task(1, QUEUE_GRAPHICS, &reg).execute(&mut res, &mut tracks).unwrap();
    assert_eq!(res.get_buffer_state(buf).ownership, QueueOwnership::Owned(0));
    // The buffer is owned again, so a second recording may use it.
    Recorder::new().add_task(2, QUEUE_COMPUTE, &reg).execute(&mut res, &mut tracks).unwrap();
    assert!(matches!(res.get_buffer_state(buf).ownership, QueueOwnership::Owned(_)));
    Recorder::new().add_task(3, QUEUE_GRAPHICS, &reg).execute(&mut res, &mut tracks).unwrap();
    assert_eq!(res.get_buffer_state(buf).ownership, QueueOwnership::Owned(0));
}
