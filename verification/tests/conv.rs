use marpii_rmg::conv::{
    map_vk_to_wgpu_texture_format, map_vk_to_wgpu_texture_usage, map_wgpu_to_vk_image_usage,
    map_wgpu_to_vk_texture_format, AstcBlock, AstcChannel, TextureFormat, FORMAT_B8G8R8A8_SRGB, FORMAT_D32_SFLOAT,
    FORMAT_R8G8B8A8_UNORM,
};

#[test]
fn wgpu_formats_map_to_vulkan_codes() {
    assert_eq!(map_wgpu_to_vk_texture_format(TextureFormat::R8Unorm), 9);
    assert_eq!(map_wgpu_to_vk_texture_format(TextureFormat::Rgba8Unorm), FORMAT_R8G8B8A8_UNORM);
    assert_eq!(map_wgpu_to_vk_texture_format(TextureFormat::Rgba8Unorm), 37);
    assert_eq!(map_wgpu_to_vk_texture_format(TextureFormat::Bgra8UnormSrgb), FORMAT_B8G8R8A8_SRGB);
    assert_eq!(map_wgpu_to_vk_texture_format(TextureFormat::Depth32Float), FORMAT_D32_SFLOAT);
    assert_eq!(map_wgpu_to_vk_texture_format(TextureFormat::Depth24Plus), 125);
    assert_eq!(map_wgpu_to_vk_texture_format(TextureFormat::NV12), 1000156003);
    assert_eq!(map_wgpu_to_vk_texture_format(TextureFormat::Rgb9e5Ufloat), 123);
    assert_eq!(map_wgpu_to_vk_texture_format(TextureFormat::Bc7RgbaUnormSrgb), 146);
    assert_eq!(map_wgpu_to_vk_texture_format(TextureFormat::EacRg11Snorm), 156);
}

#[test]
fn astc_formats_map_to_vulkan_codes() {
    let astc = |block, channel| map_wgpu_to_vk_texture_format(TextureFormat::Astc { block, channel });
    assert_eq!(astc(AstcBlock::B4x4, AstcChannel::Unorm), 157);
    assert_eq!(astc(AstcBlock::B4x4, AstcChannel::UnormSrgb), 158);
    assert_eq!(astc(AstcBlock::B4x4, AstcChannel::Hdr), 1000066000);
    assert_eq!(astc(AstcBlock::B8x8, AstcChannel::Unorm), 171);
    assert_eq!(astc(AstcBlock::B12x12, AstcChannel::UnormSrgb), 184);
    assert_eq!(astc(AstcBlock::B12x12, AstcChannel::Hdr), 1000066013);
}

#[test]
fn vulkan_codes_map_back_to_wgpu_formats() {
    assert_eq!(map_vk_to_wgpu_texture_format(9), Some(TextureFormat::R8Unorm));
    assert_eq!(map_vk_to_wgpu_texture_format(50), Some(TextureFormat::Bgra8UnormSrgb));
    assert_eq!(map_vk_to_wgpu_texture_format(129), Some(TextureFormat::Depth24PlusStencil8));
    assert_eq!(map_vk_to_wgpu_texture_format(1000156003), Some(TextureFormat::NV12));
    // Compressed formats and formats without a wgpu counterpart map to none.
    assert_eq!(map_vk_to_wgpu_texture_format(146), None);
    assert_eq!(map_vk_to_wgpu_texture_format(123), None);
    assert_eq!(map_vk_to_wgpu_texture_format(15), None);
    assert_eq!(map_vk_to_wgpu_texture_format(0), None);
}

#[test]
fn uncompressed_formats_survive_a_round_trip() {
    let formats = [
        TextureFormat::R8Unorm,
        TextureFormat::Rg16Float,
        TextureFormat::Rgba8UnormSrgb,
        TextureFormat::Rgb10a2Unorm,
        TextureFormat::Rg11b10Ufloat,
        TextureFormat::Rgba32Float,
        TextureFormat::Depth32FloatStencil8,
        TextureFormat::Stencil8,
        TextureFormat::Depth16Unorm,
        TextureFormat::NV12,
    ];
    for f in formats {
        assert_eq!(map_vk_to_wgpu_texture_format(map_wgpu_to_vk_texture_format(f)), Some(f));
    }
}

#[test]
fn vulkan_usage_maps_to_wgpu_usage() {
    assert_eq!(map_vk_to_wgpu_texture_usage(0x10), Some(0x10));
    assert_eq!(map_vk_to_wgpu_texture_usage(0x20), Some(0x10));
    assert_eq!(map_vk_to_wgpu_texture_usage(0x80), Some(0x10));
    assert_eq!(map_vk_to_wgpu_texture_usage(0x8_0000), Some(0x10));
    assert_eq!(map_vk_to_wgpu_texture_usage(0x8), Some(0x8));
    assert_eq!(map_vk_to_wgpu_texture_usage(0x4), Some(0x4));
    assert_eq!(map_vk_to_wgpu_texture_usage(0x1), Some(0x1));
    assert_eq!(map_vk_to_wgpu_texture_usage(0x2), Some(0x2));
    // Combinations of flags are not mapped.
    assert_eq!(map_vk_to_wgpu_texture_usage(0x3), None);
    assert_eq!(map_vk_to_wgpu_texture_usage(0), None);
}

#[test]
fn wgpu_usage_maps_to_vulkan_flags() {
    assert_eq!(map_wgpu_to_vk_image_usage(0), 0);
    assert_eq!(map_wgpu_to_vk_image_usage(0x1f), 0x1f);
    assert_eq!(map_wgpu_to_vk_image_usage(0x10 | 0x2), 0x12);
    assert_eq!(map_wgpu_to_vk_image_usage(0x4 | 0x8), 0xc);
    // Bits without a Vulkan counterpart are dropped.
    assert_eq!(map_wgpu_to_vk_image_usage(0x1_0000 | 0x1), 0x1);
    for single in [0x1u32, 0x2, 0x4, 0x8, 0x10] {
        assert_eq!(map_vk_to_wgpu_texture_usage(map_wgpu_to_vk_image_usage(single)), Some(single));
    }
}
