use marpii_rmg::bindless::{BindlessDeviceInfo, IMAGE_USAGE_STORAGE};
use marpii_rmg::error::{RecordError, ResourceError};
use marpii_rmg::recorder::Recorder;
use marpii_rmg::registry::ResourceRegistry;
use marpii_rmg::res_states::{AnyResKey, BufferKey, ImageKey, SamplerKey};
use marpii_rmg::resources::Resources;
use marpii_rmg::executor::Executor;
use marpii_rmg::schedule::{DepPart, TaskSchedule, TrackFrame};
use marpii_rmg::track::{TrackId, Tracks, QUEUE_COMPUTE, QUEUE_GRAPHICS, QUEUE_SPARSE_BINDING, QUEUE_TRANSFER};

fn store() -> Resources {
    Resources::new(&BindlessDeviceInfo {
        shader_storage_image_array_dynamic_indexing: 1,
        shader_storage_buffer_array_dynamic_indexing: 1,
        shader_uniform_buffer_array_dynamic_indexing: 1,
        shader_sampled_image_array_dynamic_indexing: 1,
        descriptor_indexing: 1,
        descriptor_binding_sampled_image_update_after_bind: 1,
        descriptor_binding_storage_image_update_after_bind: 1,
        descriptor_binding_storage_buffer_update_after_bind: 1,
        descriptor_binding_partially_bound: 1,
        descriptor_binding_variable_descriptor_count: 1,
        shader_storage_buffer_array_non_uniform_indexing: 1,
        shader_storage_image_array_non_uniform_indexing: 1,
        shader_sampled_image_array_non_uniform_indexing: 1,
        max_bound_descriptor_sets: 8,
        max_descriptor_set_sampled_images: 16,
        max_descriptor_set_storage_images: 16,
        max_descriptor_set_storage_buffers: 16,
        max_descriptor_set_samplers: 16,
        max_push_constants_size: 128,
    })
    .ok()
    .unwrap()
}

fn tracks() -> Tracks {
    Tracks::new(&vec![(0, QUEUE_GRAPHICS | QUEUE_COMPUTE | QUEUE_TRANSFER), (1, QUEUE_COMPUTE)])
}

#[test]
fn registry_refuses_second_request() {
    let mut reg = ResourceRegistry::new();
    assert_eq!(reg.request_image(ImageKey(1), 1, 2, 3), Ok(()));
    assert_eq!(reg.request_image(ImageKey(1), 4, 5, 6), Err(ResourceError::ResourceAlreadyRequested));
    assert_eq!(reg.request_buffer(BufferKey(1), 7, 8), Ok(()));
    assert_eq!(reg.request_buffer(BufferKey(1), 7, 8), Err(ResourceError::ResourceAlreadyRequested));
    assert_eq!(reg.request_sampler(SamplerKey(1)), Ok(()));
    assert_eq!(reg.request_sampler(SamplerKey(1)), Err(ResourceError::ResourceAlreadyRequested));
    // The second image request replaced the first.
    assert_eq!(reg.get_stage_mask(AnyResKey::Image(ImageKey(1))), Some(4));
    assert_eq!(reg.get_stage_mask(AnyResKey::Buffer(BufferKey(1))), Some(7));
    assert_eq!(reg.get_stage_mask(AnyResKey::Sampler(SamplerKey(1))), None);
    assert!(reg.contains_key(AnyResKey::Sampler(SamplerKey(1))));
    assert!(!reg.contains_key(AnyResKey::Image(ImageKey(2))));
}

#[test]
fn registry_lists_images_then_buffers_then_samplers() {
    let mut reg = ResourceRegistry::new();
    reg.request_sampler(SamplerKey(9)).unwrap();
    reg.request_buffer(BufferKey(5), 0, 0).unwrap();
    reg.request_image(ImageKey(2), 0, 0, 0).unwrap();
    reg.request_buffer(BufferKey(6), 0, 0).unwrap();
    let all = reg.any_res_iter();
    assert_eq!(all.len(), 4);
    assert_eq!(all[0], AnyResKey::Image(ImageKey(2)));
    assert!(matches!(all[1], AnyResKey::Buffer(_)));
    assert!(matches!(all[2], AnyResKey::Buffer(_)));
    assert_eq!(all[3], AnyResKey::Sampler(SamplerKey(9)));
    reg.register_binary_signal_semaphore(3);
    reg.register_binary_wait_semaphore(4);
    assert_eq!(reg.binary_signal_sem, vec![3]);
    assert_eq!(reg.binary_wait_sem, vec![4]);
}

#[test]
fn tasks_are_put_on_fitting_tracks_and_ordered() {
    let tracks = tracks();
    let mut res = store();
    let img = res.add_image(IMAGE_USAGE_STORAGE);
    let buf = res.add_buffer(0x20);
    let mut a = ResourceRegistry::new();
    a.request_image(img, 0, 0, 0).unwrap();
    let mut b = ResourceRegistry::new();
    b.request_image(img, 0, 0, 0).unwrap();
    let mut c = ResourceRegistry::new();
    c.request_buffer(buf, 0, 0).unwrap();
    let rec = Recorder::new()
        .add_task(10, QUEUE_COMPUTE, &a)
        .add_task(11, QUEUE_GRAPHICS, &b)
        .add_task(12, QUEUE_COMPUTE, &c);
    let schedule = TaskSchedule::new_from_tasks(&tracks, rec.records).ok().unwrap();

    let compute = schedule.tracks.get(&QUEUE_COMPUTE).unwrap();
    let all = QUEUE_GRAPHICS | QUEUE_COMPUTE | QUEUE_TRANSFER;
    let graphics = schedule.tracks.get(&all).unwrap();
    assert_eq!(compute.nodes.len(), 2);
    assert_eq!(compute.nodes[0].task.task, 10);
    assert_eq!(compute.nodes[1].task.task, 12);
    assert_eq!(graphics.nodes.len(), 1);
    assert_eq!(graphics.nodes[0].task.task, 11);

    // The graphics task waits for the compute task that used the image before it.
    let dep = graphics.nodes[0].dependencies[0];
    assert_eq!(dep.participant, DepPart::Scheduled { track: TrackId(QUEUE_COMPUTE), node_idx: 0 });
    assert_eq!(dep.dep, AnyResKey::Image(img));
    assert_eq!(compute.nodes[0].dependencies[0].participant, DepPart::Import);
    assert_eq!(compute.nodes[0].dependees.len(), 1);
    assert_eq!(compute.nodes[0].dependees[0].participant, DepPart::Scheduled { track: TrackId(all), node_idx: 0 });

    assert_eq!(compute.frames, vec![TrackFrame { start: 0, len: 2 }]);
    assert_eq!(graphics.frames, vec![TrackFrame { start: 0, len: 1 }]);
    let mut exec = Executor::new(schedule);
    assert_eq!(exec.run(), Ok(vec![(TrackId(QUEUE_COMPUTE), 0), (TrackId(all), 0)]));
    assert!(!exec.has_executable());
}

#[test]
fn task_without_fitting_track_is_refused() {
    let mut tracks = tracks();
    let mut res = store();
    let reg = ResourceRegistry::new();
    let rec = Recorder::new()
        .add_task(1, QUEUE_COMPUTE, &reg)
        .add_task(2, QUEUE_SPARSE_BINDING, &reg)
        .add_task(3, QUEUE_SPARSE_BINDING | QUEUE_COMPUTE, &reg);
    assert_eq!(rec.execute(&mut res, &mut tracks).err(), Some(RecordError::NoFittingTrack(QUEUE_SPARSE_BINDING)));
}

#[test]
fn empty_recording_runs_nothing() {
    let mut res = store();
    let plan = Recorder::new().execute(&mut res, &mut tracks()).unwrap();
    assert!(plan.order.is_empty());
    assert!(plan.frames.is_empty());
}
