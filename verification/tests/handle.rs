use marpii_rmg::handle::{DescriptorType, ResourceHandle};

#[test]
fn jee() {
    let res = ResourceHandle::new(ResourceHandle::TYPE_SAMPLER, 42);
    assert!(res.index() == 42);
    assert!(res.handle_type() == ResourceHandle::TYPE_SAMPLER);
}

#[test]
fn resource_handle_access() {
    let sa_img = ResourceHandle::new_from_desc_ty(DescriptorType::SampledImage, 42);
    let st_img = ResourceHandle::new_from_desc_ty(DescriptorType::StorageImage, 43);
    let st_buf = ResourceHandle::new_from_desc_ty(DescriptorType::StorageBuffer, 44);
    let sa = ResourceHandle::new_from_desc_ty(DescriptorType::Sampler, 10);
    let acc = ResourceHandle::new_from_desc_ty(DescriptorType::AccelerationStructureKhr, 45);
    let combined = ResourceHandle::new(
        ResourceHandle::TYPE_STORAGE_IMAGE | ResourceHandle::TYPE_SAMPLED_IMAGE,
        46,
    );

    assert!(sa_img.index() == 42, "42 != {}", sa_img.index());
    assert!(sa_img.descriptor_ty() == DescriptorType::SampledImage);
    assert!(st_img.index() == 43);
    assert!(st_img.descriptor_ty() == DescriptorType::StorageImage);
    assert!(st_buf.index() == 44);
    assert!(st_buf.descriptor_ty() == DescriptorType::StorageBuffer);
    assert!(sa.index() == 10);
    assert!(sa.descriptor_ty() == DescriptorType::Sampler);
    assert!(acc.index() == 45);
    assert!(acc.descriptor_ty() == DescriptorType::AccelerationStructureKhr);
    assert!(combined.index() == 46);
    assert!(combined.contains_type(ResourceHandle::TYPE_STORAGE_IMAGE));
    assert!(combined.contains_type(ResourceHandle::TYPE_SAMPLED_IMAGE));
}

#[test]
fn handle_packs_type_in_lowest_byte() {
    let h = ResourceHandle::new(ResourceHandle::TYPE_STORAGE_BUFFER, 3);
    assert_eq!(h.0, (3 << 8) | 1);
    let u = ResourceHandle::new_unchecked(ResourceHandle::TYPE_SAMPLER, 0x0100_0001);
    // The index bits above 24 are lost.
    assert_eq!(u.index(), 1);
    assert_eq!(u.handle_type(), ResourceHandle::TYPE_SAMPLER);
}

#[test]
fn handle_validity() {
    let inv = ResourceHandle::invalid();
    assert!(inv.is_invalid());
    assert!(!inv.is_valid());
    assert_eq!(inv.handle_type(), ResourceHandle::TYPE_INVALID);
    assert_eq!(inv.index(), 0);
    let ok = ResourceHandle::new(ResourceHandle::TYPE_ACCELERATION_STRUCTURE, 0);
    assert!(ok.is_valid());
    assert!(!ok.contains_type(ResourceHandle::TYPE_SAMPLER));
}

#[test]
fn descriptor_type_bits() {
    assert_eq!(ResourceHandle::descriptor_type_to_u8(DescriptorType::SampledImage), 4);
    assert_eq!(ResourceHandle::descriptor_type_to_u8(DescriptorType::StorageImage), 2);
    assert_eq!(ResourceHandle::descriptor_type_to_u8(DescriptorType::StorageBuffer), 1);
    assert_eq!(ResourceHandle::descriptor_type_to_u8(DescriptorType::Sampler), 8);
    assert_eq!(ResourceHandle::descriptor_type_to_u8(DescriptorType::AccelerationStructureKhr), 16);
    // Unsupported descriptor types are stored as storage buffers.
    assert_eq!(ResourceHandle::descriptor_type_to_u8(DescriptorType::Other(6)), 1);
    // Unknown type bits read back as a sampled image.
    let mixed = ResourceHandle::new(6, 1);
    assert_eq!(mixed.descriptor_ty(), DescriptorType::SampledImage);
}
