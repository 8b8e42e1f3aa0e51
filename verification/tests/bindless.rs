use marpii_rmg::bindless::{Bindless, BindlessDeviceInfo, BindlessError, IMAGE_USAGE_SAMPLED, IMAGE_USAGE_STORAGE};
use marpii_rmg::handle::ResourceHandle;

fn device(limit: u32) -> BindlessDeviceInfo {
    BindlessDeviceInfo {
        shader_storage_image_array_dynamic_indexing: 1,
        shader_storage_buffer_array_dynamic_indexing: 1,
        shader_uniform_buffer_array_dynamic_indexing: 1,
        shader_sampled_image_array_dynamic_indexing: 1,
        descriptor_indexing: 1,
        descriptor_binding_sampled_image_update_after_bind: 1,
        descriptor_binding_storage_image_update_after_bind: 1,
        descriptor_binding_storage_buffer_update_after_bind: 1,
        descriptor_binding_partially_bound: 1,
        descriptor_binding_variable_descriptor_count: 1,
        shader_storage_buffer_array_non_uniform_indexing: 1,
        shader_storage_image_array_non_uniform_indexing: 1,
        shader_sampled_image_array_non_uniform_indexing: 1,
        max_bound_descriptor_sets: 8,
        max_descriptor_set_sampled_images: limit,
        max_descriptor_set_storage_images: limit,
        max_descriptor_set_storage_buffers: limit,
        max_descriptor_set_samplers: limit,
        max_push_constants_size: 128,
    }
}

#[test]
fn bindless_setup_errors() {
    let mut info = device(16);
    info.shader_sampled_image_array_dynamic_indexing = 0;
    assert_eq!(Bindless::new_default(&info).err(), Some(BindlessError::DynamicArrayDescriptorIndexing));
    let mut info = device(16);
    info.shader_uniform_buffer_array_dynamic_indexing = 0;
    info.descriptor_binding_partially_bound = 0;
    assert_eq!(Bindless::new_default(&info).err(), Some(BindlessError::DynamicArrayDescriptorIndexing));
    let mut info = device(16);
    info.descriptor_indexing = 0;
    assert_eq!(Bindless::new_default(&info).err(), Some(BindlessError::DescriptorIndexing));
    let mut info = device(16);
    info.descriptor_binding_partially_bound = 0;
    assert_eq!(Bindless::new_default(&info).err(), Some(BindlessError::DescriptorIndexing));
    let mut info = device(16);
    info.shader_sampled_image_array_non_uniform_indexing = 0;
    info.max_bound_descriptor_sets = 3;
    assert_eq!(Bindless::new_default(&info).err(), Some(BindlessError::DescriptorIndexing));
    let mut info = device(16);
    info.max_bound_descriptor_sets = 3;
    assert_eq!(Bindless::new_default(&info).err(), Some(BindlessError::TooFewDescriptorSets));
}

#[test]
fn bindless_default_sizes_are_clamped() {
    let b = Bindless::new_default(&device(16)).ok().unwrap();
    assert_eq!(b.saimage.max_idx, 16);
    assert_eq!(b.stbuffer.max_idx, 16);
    assert_eq!(b.push_constant_size, 128);
    let big = Bindless::new_default(&device(u32::MAX)).ok().unwrap();
    assert_eq!(big.sampler.max_idx, Bindless::MAX_BOUND_SAMPLER);
    assert_eq!(big.stimage.max_idx, 1 << 24);
}

#[test]
fn storage_buffer_slots_are_reused_in_free_order() {
    let mut b = Bindless::new_default(&device(16)).ok().unwrap();
    let h0 = b.bind_storage_buffer(100).unwrap();
    let h1 = b.bind_storage_buffer(101).unwrap();
    let h2 = b.bind_storage_buffer(102).unwrap();
    assert_eq!((h0.index(), h1.index(), h2.index()), (0, 1, 2));
    assert_eq!(h0.handle_type(), ResourceHandle::TYPE_STORAGE_BUFFER);
    b.remove_storage_buffer(h1);
    b.remove_storage_buffer(h0);
    // The handle freed first is handed out first.
    let again = b.bind_storage_buffer(103).unwrap();
    assert_eq!(again.index(), 1);
    let again2 = b.bind_storage_buffer(104).unwrap();
    assert_eq!(again2.index(), 0);
    let fresh = b.bind_storage_buffer(105).unwrap();
    assert_eq!(fresh.index(), 3);
}

#[test]
fn full_set_gives_the_resource_back() {
    let mut info = device(1);
    info.max_descriptor_set_storage_buffers = 1;
    let mut b = Bindless::new_default(&info).ok().unwrap();
    assert!(b.bind_storage_buffer(7).is_ok());
    assert_eq!(b.bind_storage_buffer(8), Err(8));
}

#[test]
fn image_usage_is_checked() {
    let mut b = Bindless::new_default(&device(16)).ok().unwrap();
    assert_eq!(b.bind_storage_image(1, IMAGE_USAGE_SAMPLED), Err(1));
    assert_eq!(b.bind_sampled_image(2, IMAGE_USAGE_STORAGE), Err(2));
    assert_eq!(b.bind_sampled_storage_image(3, IMAGE_USAGE_STORAGE), Err(3));
    let st = b.bind_storage_image(4, IMAGE_USAGE_STORAGE).unwrap();
    assert_eq!(st.handle_type(), ResourceHandle::TYPE_STORAGE_IMAGE);
    let sa = b.bind_sampled_image(5, IMAGE_USAGE_SAMPLED | IMAGE_USAGE_STORAGE).unwrap();
    assert_eq!(sa.handle_type(), ResourceHandle::TYPE_SAMPLED_IMAGE);
    assert_eq!(sa.index(), 0);
}

#[test]
fn sampled_storage_image_shares_one_index() {
    let mut b = Bindless::new_default(&device(16)).ok().unwrap();
    let _s0 = b.bind_storage_image(1, IMAGE_USAGE_STORAGE).unwrap();
    let _s1 = b.bind_storage_image(2, IMAGE_USAGE_STORAGE).unwrap();
    let _a0 = b.bind_sampled_image(3, IMAGE_USAGE_SAMPLED).unwrap();
    // Heads: storage images at 2, sampled images at 1. The common index is 2,
    // and index 1 is marked free in the sampled image set.
    let both = b.bind_sampled_storage_image(9, IMAGE_USAGE_SAMPLED | IMAGE_USAGE_STORAGE).unwrap();
    assert_eq!(both.index(), 2);
    assert!(both.contains_type(ResourceHandle::TYPE_SAMPLED_IMAGE));
    assert!(both.contains_type(ResourceHandle::TYPE_STORAGE_IMAGE));
    assert_eq!(b.saimage.head_idx, 3);
    assert_eq!(b.stimage.head_idx, 3);
    let next_sampled = b.bind_sampled_image(10, IMAGE_USAGE_SAMPLED).unwrap();
    assert_eq!(next_sampled.index(), 1);
    // Removing from both sets frees the index in both; it is then reused in common.
    b.remove_sampled_image(both);
    b.remove_storage_image(both);
    let again = b.bind_sampled_storage_image(11, IMAGE_USAGE_SAMPLED | IMAGE_USAGE_STORAGE).unwrap();
    assert_eq!(again.index(), 2);
    assert_eq!(again.handle_type(), ResourceHandle::TYPE_SAMPLED_IMAGE | ResourceHandle::TYPE_STORAGE_IMAGE);
}

#[test]
fn samplers_bind_and_unbind() {
    let mut b = Bindless::new_default(&device(4)).ok().unwrap();
    let s = b.bind_sampler(77).unwrap();
    assert_eq!(s.handle_type(), ResourceHandle::TYPE_SAMPLER);
    assert_eq!(s.index(), 0);
    b.remove_sampler(s);
    let s2 = b.bind_sampler(78).unwrap();
    assert_eq!(s2, s);
}

#[test]
fn common_index_stays_below_both_slot_counts() {
    let mut b = Bindless::new_default(&device(2)).ok().unwrap();
    let both = IMAGE_USAGE_SAMPLED | IMAGE_USAGE_STORAGE;
    // Two sampled images fill the sampled set; no common index is left.
    b.bind_sampled_image(1, IMAGE_USAGE_SAMPLED).unwrap();
    b.bind_sampled_image(2, IMAGE_USAGE_SAMPLED).unwrap();
    assert_eq!(b.bind_sampled_storage_image(3, both), Err(3));
    assert!(b.stimage.stored.is_empty());

    let mut b = Bindless::new_default(&device(2)).ok().unwrap();
    b.bind_sampled_image(1, IMAGE_USAGE_SAMPLED).unwrap();
    let h = b.bind_sampled_storage_image(3, both).unwrap();
    assert_eq!(h.index(), 1);
    assert_eq!(b.bind_sampled_storage_image(4, both), Err(4));
}
