use marpii_rmg::register::ResourceRegister;
use marpii_rmg::registry::{ResourceRegistry, STAGE_ALL_COMMANDS};
use marpii_rmg::res_states::{BufferKey, ImageKey, SamplerKey};
use marpii_rmg::task::{
    ImageUsage, ACCESS_COLOR_ATTACHMENT_READ, ACCESS_COLOR_ATTACHMENT_WRITE, ACCESS_DEPTH_STENCIL_ATTACHMENT_READ,
    ACCESS_DEPTH_STENCIL_ATTACHMENT_WRITE, ACCESS_INPUT_ATTACHMENT_READ, ACCESS_SHADER_SAMPLED_READ,
    ACCESS_SHADER_STORAGE_READ, ACCESS_SHADER_STORAGE_WRITE, IMAGE_LAYOUT_COLOR_ATTACHMENT_OPTIMAL,
    IMAGE_LAYOUT_DEPTH_ATTACHMENT_OPTIMAL, IMAGE_LAYOUT_GENERAL, IMAGE_LAYOUT_SHADER_READ_ONLY_OPTIMAL,
};

#[test]
fn register_returns_former_use() {
    let mut reg = ResourceRegister::new();
    assert_eq!(reg.register_image(ImageKey(3), 1, 2, 3), None);
    assert_eq!(reg.register_image(ImageKey(3), 4, 5, 6), Some((1, 2, 3)));
    assert_eq!(reg.register_buffer(BufferKey(3), 7, 8), None);
    assert_eq!(reg.register_buffer(BufferKey(3), 9, 10), Some((7, 8)));
    assert!(!reg.register_sampler(SamplerKey(2)));
    assert!(reg.register_sampler(SamplerKey(2)));
    assert_eq!(reg.images.get(&3), Some(&(4, 5, 6)));
    assert_eq!(reg.buffers.get(&3), Some(&(9, 10)));
}

#[test]
fn register_reset_forgets_everything() {
    let mut reg = ResourceRegister::new();
    reg.register_image(ImageKey(1), 1, 1, 1);
    reg.register_buffer(BufferKey(1), 1, 1);
    reg.register_sampler(SamplerKey(1));
    reg.reset();
    assert!(reg.images.is_empty());
    assert!(reg.buffers.is_empty());
    assert!(reg.samplers.is_empty());
    assert_eq!(reg.register_image(ImageKey(1), 2, 2, 2), None);
}

#[test]
fn register_all_requests_each_resource_with_its_use() {
    let mut reg = ResourceRegister::new();
    reg.register_image(ImageKey(1), 0x800, ACCESS_SHADER_STORAGE_WRITE, IMAGE_LAYOUT_GENERAL);
    reg.register_image(ImageKey(2), 0x800, ACCESS_SHADER_SAMPLED_READ, IMAGE_LAYOUT_SHADER_READ_ONLY_OPTIMAL);
    reg.register_buffer(BufferKey(7), 0x800, ACCESS_SHADER_STORAGE_READ);
    reg.register_sampler(SamplerKey(4));

    let mut registry = ResourceRegistry::new();
    registry.request_buffer(BufferKey(8), 1, 1).unwrap();
    reg.register_all(&mut registry);

    assert_eq!(registry.images.len(), 2);
    assert_eq!(registry.images.get(&1), Some(&(0x800, ACCESS_SHADER_STORAGE_WRITE, IMAGE_LAYOUT_GENERAL)));
    assert_eq!(
        registry.images.get(&2),
        Some(&(0x800, ACCESS_SHADER_SAMPLED_READ, IMAGE_LAYOUT_SHADER_READ_ONLY_OPTIMAL))
    );
    assert_eq!(registry.buffers.len(), 2);
    assert_eq!(registry.buffers.get(&7), Some(&(0x800, ACCESS_SHADER_STORAGE_READ)));
    assert_eq!(registry.buffers.get(&8), Some(&(1, 1)));
    assert_eq!(registry.sampler.len(), 1);
    assert!(registry.sampler.contains(&4));
}

#[test]
fn image_usage_layouts() {
    assert_eq!(ImageUsage::StorageRead.into_layout(), IMAGE_LAYOUT_GENERAL);
    assert_eq!(ImageUsage::StorageWrite.into_layout(), 1);
    assert_eq!(ImageUsage::StorageAndSampleRead.into_layout(), IMAGE_LAYOUT_GENERAL);
    assert_eq!(ImageUsage::SampledRead.into_layout(), 5);
    let color = ImageUsage::ColorAttachment {
        attachment_index: 0,
        load_op: 1,
        store_op: 0,
        clear_color_bits: [0, 0, 0, 1.0f32.to_bits()],
    };
    let depth = ImageUsage::DepthStencilAttachment { load_op: 1, store_op: 0, clear_depth_bits: 1.0f32.to_bits() };
    assert_eq!(color.into_layout(), IMAGE_LAYOUT_COLOR_ATTACHMENT_OPTIMAL);
    assert_eq!(depth.into_layout(), IMAGE_LAYOUT_DEPTH_ATTACHMENT_OPTIMAL);
    assert_eq!(depth.into_layout(), 1000241000);
}

#[test]
fn image_usage_access_flags() {
    assert_eq!(ImageUsage::StorageRead.into_access_flags(), 0x2_0000_0000);
    assert_eq!(ImageUsage::StorageWrite.into_access_flags(), 0x4_0000_0000);
    assert_eq!(ImageUsage::SampledRead.into_access_flags(), 0x1_0000_0000);
    assert_eq!(ImageUsage::StorageAndSampleRead.into_access_flags(), 0x3_0000_0000);
    let color = ImageUsage::ColorAttachment { attachment_index: 2, load_op: 0, store_op: 0, clear_color_bits: [0; 4] };
    let depth = ImageUsage::DepthStencilAttachment { load_op: 0, store_op: 0, clear_depth_bits: 0 };
    assert_eq!(
        color.into_access_flags(),
        ACCESS_INPUT_ATTACHMENT_READ | ACCESS_COLOR_ATTACHMENT_WRITE | ACCESS_COLOR_ATTACHMENT_READ
    );
    assert_eq!(color.into_access_flags(), 0x190);
    assert_eq!(
        depth.into_access_flags(),
        ACCESS_INPUT_ATTACHMENT_READ | ACCESS_DEPTH_STENCIL_ATTACHMENT_READ | ACCESS_DEPTH_STENCIL_ATTACHMENT_WRITE
    );
    assert_eq!(depth.into_access_flags(), 0x610);
    assert!(color.is_attachment());
    assert!(depth.is_attachment());
    assert!(!ImageUsage::SampledRead.is_attachment());
    assert!(!ImageUsage::StorageWrite.is_attachment());
}

#[test]
fn foreign_semaphores_become_submit_entries_in_order() {
    let mut registry = ResourceRegistry::new();
    registry.register_binary_signal_semaphore(11);
    registry.register_binary_signal_semaphore(12);
    registry.register_binary_wait_semaphore(21);
    let mut signals = vec![(1u64, 2u64)];
    registry.append_binary_signal_semaphores(&mut signals);
    assert_eq!(signals, vec![(1, 2), (11, STAGE_ALL_COMMANDS), (12, 0x1_0000)]);
    let mut waits = Vec::new();
    registry.append_binary_wait_semaphores(&mut waits);
    assert_eq!(waits, vec![(21, 0x1_0000)]);
}
