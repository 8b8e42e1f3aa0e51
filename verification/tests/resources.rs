use marpii_rmg::bindless::{BindlessDeviceInfo, BindlessError, IMAGE_USAGE_SAMPLED, IMAGE_USAGE_STORAGE};
use marpii_rmg::error::{RecordError, ResourceError};
use marpii_rmg::handle::ResourceHandle;
use marpii_rmg::registry::{ResourceRegistry, Transition};
use marpii_rmg::res_states::{AnyHandle, AnyResKey, QueueOwnership};
use marpii_rmg::resources::Resources;
use marpii_rmg::track::{Guard, TrackId, Tracks, QUEUE_COMPUTE, QUEUE_GRAPHICS, QUEUE_TRANSFER};

fn device() -> BindlessDeviceInfo {
    BindlessDeviceInfo {
        shader_storage_image_array_dynamic_indexing: 1,
        shader_storage_buffer_array_dynamic_indexing: 1,
        shader_uniform_buffer_array_dynamic_indexing: 1,
        shader_sampled_image_array_dynamic_indexing: 1,
        descriptor_indexing: 1,
        descriptor_binding_sampled_image_update_after_bind: 1,
        descriptor_binding_storage_image_update_after_bind: 1,
        descriptor_binding_storage_buffer_update_after_bind: 1,
        descriptor_binding_partially_bound: 1,
        descriptor_binding_variable_descriptor_count: 1,
        shader_storage_buffer_array_non_uniform_indexing: 1,
        shader_storage_image_array_non_uniform_indexing: 1,
        shader_sampled_image_array_non_uniform_indexing: 1,
        max_bound_descriptor_sets: 8,
        max_descriptor_set_sampled_images: 16,
        max_descriptor_set_storage_images: 16,
        max_descriptor_set_storage_buffers: 16,
        max_descriptor_set_samplers: 16,
        max_push_constants_size: 128,
    }
}

fn tracks() -> Tracks {
    Tracks::new(&vec![(0, QUEUE_GRAPHICS | QUEUE_COMPUTE | QUEUE_TRANSFER), (1, QUEUE_COMPUTE)])
}

fn handle(key: AnyResKey) -> AnyHandle {
    AnyHandle { atomic_ref: None, key }
}

#[test]
fn store_setup_fails_like_bindless() {
    let mut info = device();
    info.descriptor_binding_storage_buffer_update_after_bind = 0;
    assert_eq!(Resources::new(&info).err(), Some(BindlessError::DescriptorIndexing));
    let mut info = device();
    info.shader_storage_image_array_dynamic_indexing = 0;
    assert_eq!(Resources::new(&info).err(), Some(BindlessError::DynamicArrayDescriptorIndexing));
}

#[test]
fn added_resources_start_uninitialised() {
    let mut res = Resources::new(&device()).ok().unwrap();
    let img = res.add_image(IMAGE_USAGE_STORAGE);
    let buf = res.add_buffer(0x20);
    let sam = res.add_sampler();
    let st = res.get_image_state(img);
    assert_eq!(st.usage, IMAGE_USAGE_STORAGE);
    assert_eq!(st.ownership, QueueOwnership::Uninitialized);
    assert_eq!(st.mask, 0);
    assert_eq!(st.layout, 0);
    assert_eq!(st.guard, None);
    assert_eq!(st.descriptor_handle, None);
    assert_eq!(res.get_buffer_state(buf).usage, 0x20);
    assert_eq!(res.get_sampler_state(sam).descriptor_handle, None);
    let tracks = tracks();
    assert!(!AnyResKey::Image(img).is_initialised(&res));
    assert!(!AnyResKey::Buffer(buf).is_initialised(&res));
    assert!(AnyResKey::Sampler(sam).is_initialised(&res));
    assert_eq!(AnyResKey::Buffer(buf).current_owner(&res, &tracks), None);
    assert_eq!(AnyResKey::Buffer(buf).guarded_until(&res), 0);
    assert!(AnyResKey::Buffer(buf).guard_expired(&res, &tracks, 0));
    // Distinct keys for the two added images.
    let img2 = res.add_image(IMAGE_USAGE_SAMPLED);
    assert_ne!(img, img2);
}

#[test]
fn imported_buffer_is_owned_by_its_family() {
    let mut res = Resources::new(&device()).ok().unwrap();
    let tracks = tracks();
    let buf = res.import_buffer(&tracks, 0x20, Some(1), Some(0x40)).unwrap();
    let st = res.get_buffer_state(buf);
    assert_eq!(st.ownership, QueueOwnership::Owned(1));
    assert_eq!(st.mask, 0x40);
    let key = AnyResKey::Buffer(buf);
    assert!(key.is_initialised(&res));
    assert_eq!(key.current_owner(&res, &tracks), Some(TrackId(QUEUE_COMPUTE)));
    let plain = res.import_buffer(&tracks, 0x20, None, None).unwrap();
    assert_eq!(res.get_buffer_state(plain).ownership, QueueOwnership::Uninitialized);
    assert_eq!(res.get_buffer_state(plain).mask, 0);
    assert_eq!(
        res.import_buffer(&tracks, 0x20, Some(5), None),
        Err(ResourceError::NoTrackForQueueFamily(5))
    );
}

#[test]
fn resource_handles_are_bound_once() {
    let mut res = Resources::new(&device()).ok().unwrap();
    let buf = AnyResKey::Buffer(res.add_buffer(0x20));
    let h = res.get_resource_handle(handle(buf)).unwrap();
    assert_eq!(h.handle_type(), ResourceHandle::TYPE_STORAGE_BUFFER);
    assert_eq!(h.index(), 0);
    // Asking again gives the same handle and binds nothing new.
    assert_eq!(res.get_resource_handle(handle(buf)), Ok(h));
    assert_eq!(res.bindless.stbuffer.head_idx, 1);

    let sampled = AnyResKey::Image(res.add_image(IMAGE_USAGE_SAMPLED | IMAGE_USAGE_STORAGE));
    let hs = res.get_resource_handle(handle(sampled)).unwrap();
    assert_eq!(hs.handle_type(), ResourceHandle::TYPE_SAMPLED_IMAGE);
    let storage = AnyResKey::Image(res.add_image(IMAGE_USAGE_STORAGE));
    let ht = res.get_resource_handle(handle(storage)).unwrap();
    assert_eq!(ht.handle_type(), ResourceHandle::TYPE_STORAGE_IMAGE);
    let neither = AnyResKey::Image(res.add_image(0));
    assert_eq!(res.get_resource_handle(handle(neither)), Err(ResourceError::BindingFailed));
    let samk = res.add_sampler();
    let hsam = res.get_resource_handle(handle(AnyResKey::Sampler(samk))).unwrap();
    assert_eq!(hsam.handle_type(), ResourceHandle::TYPE_SAMPLER);
    assert_eq!(res.get_sampler_state(samk).descriptor_handle, Some(hsam));
}

#[test]
fn acquiring_takes_ownership_once() {
    let mut res = Resources::new(&device()).ok().unwrap();
    let key = AnyResKey::Image(res.add_image(IMAGE_USAGE_STORAGE));
    let g1 = Guard { track: TrackId(QUEUE_COMPUTE), target_value: 3 };
    // An uninitialised resource is taken over without a transfer.
    assert_eq!(res.acquire(key, 1, g1), Ok((None, None)));
    assert_eq!(key.guarded_until(&res), 3);
    let tracks = tracks();
    assert_eq!(key.current_owner(&res, &tracks), Some(TrackId(QUEUE_COMPUTE)));
    assert!(!key.guard_expired(&res, &tracks, 2));
    assert!(key.guard_expired(&res, &tracks, 3));
    // Acquiring what is still owned fails and changes nothing.
    let g2 = Guard { track: TrackId(QUEUE_COMPUTE), target_value: 4 };
    assert_eq!(res.acquire(key, 0, g2), Err(RecordError::AcquireRecord(handle(key), 0)));
    assert_eq!(key.guarded_until(&res), 3);
    // Samplers have no ownership.
    let sam = AnyResKey::Sampler(res.add_sampler());
    assert_eq!(res.acquire(sam, 0, g2), Ok((None, None)));
    let all = res.acquire_all(&vec![sam, key], 0, g2);
    assert_eq!(all, Err(RecordError::AcquireRecord(handle(key), 0)));
}

#[test]
fn transition_brings_resource_to_requested_state() {
    let mut res = Resources::new(&device()).ok().unwrap();
    let img = res.add_image(IMAGE_USAGE_STORAGE);
    let buf = res.add_buffer(0x20);
    let mut reg = ResourceRegistry::new();
    reg.request_image(img, 0x80, 0x4_0000_0000, 1).unwrap();
    reg.request_buffer(buf, 0x80, 0).unwrap();
    let t = reg.add_diff_transition(&mut res, AnyResKey::Image(img), 0x1).unwrap();
    assert_eq!(
        t,
        Transition {
            res: AnyResKey::Image(img),
            src_stage: 0x1,
            dst_stage: 0x80,
            src_access: 0,
            dst_access: 0x4_0000_0000,
            old_layout: 0,
            new_layout: 1,
        }
    );
    assert_eq!(res.get_image_state(img).mask, 0x4_0000_0000);
    assert_eq!(res.get_image_state(img).layout, 1);
    // Already in the requested state: no barrier is needed.
    assert_eq!(reg.add_diff_transition(&mut res, AnyResKey::Image(img), 0x2), None);
    assert_eq!(res.get_image_state(img).mask, 0x4_0000_0000);
    // Buffer already at access mask 0: no barrier either.
    assert_eq!(reg.add_diff_transition(&mut res, AnyResKey::Buffer(buf), 0x1), None);
    // A buffer requested with another access mask gets one.
    let buf2 = res.add_buffer(0x20);
    reg.request_buffer(buf2, 0x80, 0x2_0000_0000).unwrap();
    let tb = reg.add_diff_transition(&mut res, AnyResKey::Buffer(buf2), 0x1).unwrap();
    assert_eq!((tb.src_access, tb.dst_access, tb.src_stage, tb.dst_stage), (0, 0x2_0000_0000, 0x1, 0x80));
    assert_eq!(res.get_buffer_state(buf2).mask, 0x2_0000_0000);
    // Only the layout differs: a barrier with the layout change alone.
    let img2 = res.add_image(IMAGE_USAGE_STORAGE);
    reg.request_image(img2, 0x80, 0, 5).unwrap();
    let ti = reg.add_diff_transition(&mut res, AnyResKey::Image(img2), 0x1).unwrap();
    assert_eq!((ti.src_access, ti.dst_access, ti.old_layout, ti.new_layout), (0, 0, 0, 5));
    let sam = res.add_sampler();
    reg.request_sampler(sam).unwrap();
    assert_eq!(reg.add_diff_transition(&mut res, AnyResKey::Sampler(sam), 0x1), None);
}

#[test]
fn orphans_are_dropped_once_their_guard_is_done() {
    let mut res = Resources::new(&device()).ok().unwrap();
    let tracks = tracks();
    let all = TrackId(QUEUE_GRAPHICS | QUEUE_COMPUTE | QUEUE_TRANSFER);
    let sampled = AnyResKey::Image(res.add_image(IMAGE_USAGE_SAMPLED));
    let storage = AnyResKey::Image(res.add_image(IMAGE_USAGE_STORAGE));
    let buf = AnyResKey::Buffer(res.import_buffer(&tracks, 0x20, Some(0), None).unwrap());
    let kept = AnyResKey::Buffer(res.import_buffer(&tracks, 0x20, Some(0), None).unwrap());
    let sam = AnyResKey::Sampler(res.add_sampler());
    let hs = res.get_resource_handle(handle(sampled)).unwrap();
    let _ht = res.get_resource_handle(handle(storage)).unwrap();
    let hb = res.get_resource_handle(handle(buf)).unwrap();
    let hk = res.get_resource_handle(handle(kept)).unwrap();
    let hsam = res.get_resource_handle(handle(sam)).unwrap();
    // Both images are owned by family 1: the sampled one guarded until 1,
    // the storage one until 4 on the compute track.
    res.acquire(sampled, 1, Guard { track: TrackId(QUEUE_COMPUTE), target_value: 1 }).unwrap();
    res.acquire(storage, 1, Guard { track: TrackId(QUEUE_COMPUTE), target_value: 4 }).unwrap();
    let orphaned = vec![sampled, storage, buf, sam, buf];
    res.tick_record(&tracks, &orphaned, &vec![(TrackId(QUEUE_COMPUTE), 3)]);
    // Everything orphaned went, but the storage image, whose guard is not done.
    assert_eq!(sampled.current_owner(&res, &tracks), None);
    assert_eq!(storage.current_owner(&res, &tracks), Some(TrackId(QUEUE_COMPUTE)));
    assert_eq!(buf.current_owner(&res, &tracks), None);
    assert_eq!(kept.current_owner(&res, &tracks), Some(all));
    assert_eq!(res.get_resource_handle(handle(kept)), Ok(hk));
    // The freed slots are handed out again.
    assert_eq!(res.bindless.bind_sampled_image(77, IMAGE_USAGE_SAMPLED), Ok(hs));
    assert_eq!(res.bindless.bind_storage_buffer(78), Ok(hb));
    assert_eq!(res.bindless.bind_sampler(79), Ok(hsam));
    // Once the compute track reaches 4, the storage image goes too.
    res.tick_record(&tracks, &vec![storage], &vec![(TrackId(QUEUE_COMPUTE), 4)]);
    assert_eq!(storage.current_owner(&res, &tracks), None);
    assert_eq!(storage.guarded_until(&res), 0);
}
