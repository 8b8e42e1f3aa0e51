use marpii_rmg::error::ResourceError;
use marpii_rmg::handle::ResourceHandle;
use marpii_rmg::res_states::{AnyHandle, AnyResKey, BufferKey, ImageKey, SamplerKey};
use marpii_rmg::rmg::{check_features, check_image_usage, RmgError, Vk10Features, Vk12Features, Vk13Features};
use marpii_rmg::task::{BufferUsage, ACCESS_SHADER_STORAGE_READ, ACCESS_SHADER_STORAGE_WRITE};
use marpii_rmg::tasks::{pack_mesh_ranges, AlphaBlendPush, DownloadError, MeshRange, NoTaskError};
use marpii_rmg::temporary::{RuntimeInfo, TempResources};

fn features() -> (Vk10Features, Vk12Features, Vk13Features) {
    (
        Vk10Features {
            shader_int16: 1,
            shader_float64: 1,
            shader_storage_buffer_array_dynamic_indexing: 1,
            shader_storage_image_array_dynamic_indexing: 1,
            shader_uniform_buffer_array_dynamic_indexing: 1,
            shader_sampled_image_array_dynamic_indexing: 1,
            robust_buffer_access: 1,
        },
        Vk12Features {
            shader_int8: 1,
            runtime_descriptor_array: 1,
            timeline_semaphore: 1,
            descriptor_indexing: 1,
            descriptor_binding_partially_bound: 1,
            descriptor_binding_sampled_image_update_after_bind: 1,
            descriptor_binding_storage_image_update_after_bind: 1,
            descriptor_binding_storage_buffer_update_after_bind: 1,
            descriptor_binding_variable_descriptor_count: 1,
            shader_storage_buffer_array_non_uniform_indexing: 1,
            shader_storage_image_array_non_uniform_indexing: 1,
            shader_sampled_image_array_non_uniform_indexing: 1,
            vulkan_memory_model: 1,
        },
        Vk13Features { maintenance4: 1, dynamic_rendering: 1, synchronization2: 1 },
    )
}

#[test]
fn all_features_present() {
    let (a, b, c) = features();
    assert!(check_features(&a, &b, &c).is_ok());
}

#[test]
fn missing_features_are_named_in_order() {
    let (mut a, mut b, mut c) = features();
    c.synchronization2 = 0;
    a.shader_float64 = 0;
    b.timeline_semaphore = 0;
    match check_features(&a, &b, &c) {
        Err(RmgError::MissingFeatures(m)) => assert_eq!(
            m,
            vec![
                "vk10::shader_float64".to_string(),
                "vk12::timeline_semaphore".to_string(),
                "vk13::synchronization2".to_string()
            ]
        ),
        other => panic!("unexpected {:?}", other),
    }
}

#[test]
fn temporary_resources_time_out() {
    let mut t = TempResources::new();
    let img = AnyResKey::Image(ImageKey(7));
    let buf = AnyResKey::Buffer(BufferKey(7));
    assert_eq!(t.register(img, 2), Ok(()));
    assert_eq!(
        t.register(img, 2),
        Err(ResourceError::ResourceExists(AnyHandle { atomic_ref: None, key: img }))
    );
    assert_eq!(t.register(buf, 1), Ok(()));
    let mut dropped = Vec::new();
    t.tick(&mut dropped);
    assert_eq!(t.epoch, 1);
    assert_eq!(dropped, vec![buf]);
    t.tick(&mut dropped);
    assert_eq!(dropped, vec![buf, img]);
    assert!(t.res_map.is_empty());
    // Registered at epoch 2 with timeout 0: dropped at the next tick.
    let sam = AnyResKey::Sampler(SamplerKey(1));
    t.register(sam, 0).unwrap();
    let mut again = Vec::new();
    t.tick(&mut again);
    assert_eq!(again, vec![sam]);
    assert_eq!(TempResources::DEFAULT_TIMEOUT, 31);
    assert_eq!(RuntimeInfo { last_use: 3, timeout: 4 }.timeout_epoch(), 7);
}

#[test]
fn buffer_usage_access_flags() {
    assert_eq!(BufferUsage::Read.into_access_flags(), ACCESS_SHADER_STORAGE_READ);
    assert_eq!(BufferUsage::Write.into_access_flags(), ACCESS_SHADER_STORAGE_WRITE);
    assert_eq!(BufferUsage::ReadWrite.into_access_flags(), 0x6_0000_0000);
}

#[test]
fn task_shared_types() {
    assert_eq!(NoTaskError.message(), "NoError");
    assert_ne!(DownloadError::BufferCPUNotReadable, DownloadError::TaskNotScheduled);
    let h = ResourceHandle::new(ResourceHandle::TYPE_SAMPLED_IMAGE, 3);
    let push = AlphaBlendPush {
        add: h,
        dst: h,
        pad0: [ResourceHandle::invalid(); 2],
        add_offset: [1, -2],
        dst_offset: [0, 0],
        extent: [64, 32],
        pad1: [0; 2],
    };
    assert_eq!(push.add.index(), 3);
    assert!(push.pad0[0].is_invalid());
}

#[test]
fn images_need_sampled_or_storage_usage() {
    assert!(check_image_usage(0x4).is_ok());
    assert!(check_image_usage(0x8).is_ok());
    assert!(check_image_usage(0x4 | 0x8 | 0x1).is_ok());
    assert!(matches!(check_image_usage(0x1 | 0x2 | 0x10), Err(RmgError::ResourceError(ResourceError::ImageNoUsageFlags))));
    assert!(matches!(check_image_usage(0), Err(RmgError::ResourceError(ResourceError::ImageNoUsageFlags))));
}

#[test]
fn meshes_are_packed_one_after_the_other() {
    let ranges = pack_mesh_ranges(&vec![(4, 6), (3, 3), (0, 0), (10, 12)]);
    let r = |vertex_offset, index_offset, vertex_buffer_size, index_buffer_size| MeshRange {
        vertex_offset,
        index_offset,
        vertex_buffer_size,
        index_buffer_size,
    };
    assert_eq!(ranges, vec![r(0, 0, 4, 6), r(4, 6, 3, 3), r(7, 9, 0, 0), r(7, 9, 10, 12)]);
    assert!(pack_mesh_ranges(&Vec::new()).is_empty());
}
