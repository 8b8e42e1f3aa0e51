//! Format and usage conversions between wgpu's texture descriptions and
//! Vulkan's. wgpu's texture formats are held in an enum of this library with
//! the same variants; Vulkan formats and both kinds of usage flags are held as
//! their raw codes and bits.
use vstd::prelude::*;
use crate::bindless::{IMAGE_USAGE_SAMPLED, IMAGE_USAGE_STORAGE};

verus! {

/// Vulkan format code of `R8_UNORM`.
pub const FORMAT_R8_UNORM: i32 = 9;
/// Vulkan format code of `R8_SNORM`.
pub const FORMAT_R8_SNORM: i32 = 10;
/// Vulkan format code of `R8_UINT`.
pub const FORMAT_R8_UINT: i32 = 13;
/// Vulkan format code of `R8_SINT`.
pub const FORMAT_R8_SINT: i32 = 14;
/// Vulkan format code of `R16_UINT`.
pub const FORMAT_R16_UINT: i32 = 74;
/// Vulkan format code of `R16_SINT`.
pub const FORMAT_R16_SINT: i32 = 75;
/// Vulkan format code of `R16_UNORM`.
pub const FORMAT_R16_UNORM: i32 = 70;
/// Vulkan format code of `R16_SNORM`.
pub const FORMAT_R16_SNORM: i32 = 71;
/// Vulkan format code of `R16_SFLOAT`.
pub const FORMAT_R16_SFLOAT: i32 = 76;
/// Vulkan format code of `R8G8_UNORM`.
pub const FORMAT_R8G8_UNORM: i32 = 16;
/// Vulkan format code of `R8G8_SNORM`.
pub const FORMAT_R8G8_SNORM: i32 = 17;
/// Vulkan format code of `R8G8_UINT`.
pub const FORMAT_R8G8_UINT: i32 = 20;
/// Vulkan format code of `R8G8_SINT`.
pub const FORMAT_R8G8_SINT: i32 = 21;
/// Vulkan format code of `R16G16_UNORM`.
pub const FORMAT_R16G16_UNORM: i32 = 77;
/// Vulkan format code of `R16G16_SNORM`.
pub const FORMAT_R16G16_SNORM: i32 = 78;
/// Vulkan format code of `R32_UINT`.
pub const FORMAT_R32_UINT: i32 = 98;
/// Vulkan format code of `R32_SINT`.
pub const FORMAT_R32_SINT: i32 = 99;
/// Vulkan format code of `R32_SFLOAT`.
pub const FORMAT_R32_SFLOAT: i32 = 100;
/// Vulkan format code of `R16G16_UINT`.
pub const FORMAT_R16G16_UINT: i32 = 81;
/// Vulkan format code of `R16G16_SINT`.
pub const FORMAT_R16G16_SINT: i32 = 82;
/// Vulkan format code of `R16G16_SFLOAT`.
pub const FORMAT_R16G16_SFLOAT: i32 = 83;
/// Vulkan format code of `R8G8B8A8_UNORM`.
pub const FORMAT_R8G8B8A8_UNORM: i32 = 37;
/// Vulkan format code of `R8G8B8A8_SRGB`.
pub const FORMAT_R8G8B8A8_SRGB: i32 = 43;
/// Vulkan format code of `B8G8R8A8_SRGB`.
pub const FORMAT_B8G8R8A8_SRGB: i32 = 50;
/// Vulkan format code of `R8G8B8A8_SNORM`.
pub const FORMAT_R8G8B8A8_SNORM: i32 = 38;
/// Vulkan format code of `B8G8R8A8_UNORM`.
pub const FORMAT_B8G8R8A8_UNORM: i32 = 44;
/// Vulkan format code of `R8G8B8A8_UINT`.
pub const FORMAT_R8G8B8A8_UINT: i32 = 41;
/// Vulkan format code of `R8G8B8A8_SINT`.
pub const FORMAT_R8G8B8A8_SINT: i32 = 42;
/// Vulkan format code of `A2B10G10R10_UINT_PACK32`.
pub const FORMAT_A2B10G10R10_UINT_PACK32: i32 = 68;
/// Vulkan format code of `A2B10G10R10_UNORM_PACK32`.
pub const FORMAT_A2B10G10R10_UNORM_PACK32: i32 = 64;
/// Vulkan format code of `B10G11R11_UFLOAT_PACK32`.
pub const FORMAT_B10G11R11_UFLOAT_PACK32: i32 = 122;
/// Vulkan format code of `R32G32_UINT`.
pub const FORMAT_R32G32_UINT: i32 = 101;
/// Vulkan format code of `R32G32_SINT`.
pub const FORMAT_R32G32_SINT: i32 = 102;
/// Vulkan format code of `R32G32_SFLOAT`.
pub const FORMAT_R32G32_SFLOAT: i32 = 103;
/// Vulkan format code of `R16G16B16A16_UINT`.
pub const FORMAT_R16G16B16A16_UINT: i32 = 95;
/// Vulkan format code of `R16G16B16A16_SINT`.
pub const FORMAT_R16G16B16A16_SINT: i32 = 96;
/// Vulkan format code of `R16G16B16A16_UNORM`.
pub const FORMAT_R16G16B16A16_UNORM: i32 = 91;
/// Vulkan format code of `R16G16B16A16_SNORM`.
pub const FORMAT_R16G16B16A16_SNORM: i32 = 92;
/// Vulkan format code of `R16G16B16A16_SFLOAT`.
pub const FORMAT_R16G16B16A16_SFLOAT: i32 = 97;
/// Vulkan format code of `R32G32B32A32_UINT`.
pub const FORMAT_R32G32B32A32_UINT: i32 = 107;
/// Vulkan format code of `R32G32B32A32_SINT`.
pub const FORMAT_R32G32B32A32_SINT: i32 = 108;
/// Vulkan format code of `R32G32B32A32_SFLOAT`.
pub const FORMAT_R32G32B32A32_SFLOAT: i32 = 109;
/// Vulkan format code of `D32_SFLOAT`.
pub const FORMAT_D32_SFLOAT: i32 = 126;
/// Vulkan format code of `D32_SFLOAT_S8_UINT`.
pub const FORMAT_D32_SFLOAT_S8_UINT: i32 = 130;
/// Vulkan format code of `X8_D24_UNORM_PACK32`.
pub const FORMAT_X8_D24_UNORM_PACK32: i32 = 125;
/// Vulkan format code of `D24_UNORM_S8_UINT`.
pub const FORMAT_D24_UNORM_S8_UINT: i32 = 129;
/// Vulkan format code of `S8_UINT`.
pub const FORMAT_S8_UINT: i32 = 127;
/// Vulkan format code of `D16_UNORM`.
pub const FORMAT_D16_UNORM: i32 = 124;
/// Vulkan format code of `G8_B8R8_2PLANE_420_UNORM`.
pub const FORMAT_G8_B8R8_2PLANE_420_UNORM: i32 = 1000156003;
/// Vulkan format code of `E5B9G9R9_UFLOAT_PACK32`.
pub const FORMAT_E5B9G9R9_UFLOAT_PACK32: i32 = 123;
/// Vulkan format code of `BC1_RGBA_UNORM_BLOCK`.
pub const FORMAT_BC1_RGBA_UNORM_BLOCK: i32 = 133;
/// Vulkan format code of `BC1_RGBA_SRGB_BLOCK`.
pub const FORMAT_BC1_RGBA_SRGB_BLOCK: i32 = 134;
/// Vulkan format code of `BC2_UNORM_BLOCK`.
pub const FORMAT_BC2_UNORM_BLOCK: i32 = 135;
/// Vulkan format code of `BC2_SRGB_BLOCK`.
pub const FORMAT_BC2_SRGB_BLOCK: i32 = 136;
/// Vulkan format code of `BC3_UNORM_BLOCK`.
pub const FORMAT_BC3_UNORM_BLOCK: i32 = 137;
/// Vulkan format code of `BC3_SRGB_BLOCK`.
pub const FORMAT_BC3_SRGB_BLOCK: i32 = 138;
/// Vulkan format code of `BC4_UNORM_BLOCK`.
pub const FORMAT_BC4_UNORM_BLOCK: i32 = 139;
/// Vulkan format code of `BC4_SNORM_BLOCK`.
pub const FORMAT_BC4_SNORM_BLOCK: i32 = 140;
/// Vulkan format code of `BC5_UNORM_BLOCK`.
pub const FORMAT_BC5_UNORM_BLOCK: i32 = 141;
/// Vulkan format code of `BC5_SNORM_BLOCK`.
pub const FORMAT_BC5_SNORM_BLOCK: i32 = 142;
/// Vulkan format code of `BC6H_UFLOAT_BLOCK`.
pub const FORMAT_BC6H_UFLOAT_BLOCK: i32 = 143;
/// Vulkan format code of `BC6H_SFLOAT_BLOCK`.
pub const FORMAT_BC6H_SFLOAT_BLOCK: i32 = 144;
/// Vulkan format code of `BC7_UNORM_BLOCK`.
pub const FORMAT_BC7_UNORM_BLOCK: i32 = 145;
/// Vulkan format code of `BC7_SRGB_BLOCK`.
pub const FORMAT_BC7_SRGB_BLOCK: i32 = 146;
/// Vulkan format code of `ETC2_R8G8B8_UNORM_BLOCK`.
pub const FORMAT_ETC2_R8G8B8_UNORM_BLOCK: i32 = 147;
/// Vulkan format code of `ETC2_R8G8B8_SRGB_BLOCK`.
pub const FORMAT_ETC2_R8G8B8_SRGB_BLOCK: i32 = 148;
/// Vulkan format code of `ETC2_R8G8B8A1_UNORM_BLOCK`.
pub const FORMAT_ETC2_R8G8B8A1_UNORM_BLOCK: i32 = 149;
/// Vulkan format code of `ETC2_R8G8B8A1_SRGB_BLOCK`.
pub const FORMAT_ETC2_R8G8B8A1_SRGB_BLOCK: i32 = 150;
/// Vulkan format code of `ETC2_R8G8B8A8_UNORM_BLOCK`.
pub const FORMAT_ETC2_R8G8B8A8_UNORM_BLOCK: i32 = 151;
/// Vulkan format code of `ETC2_R8G8B8A8_SRGB_BLOCK`.
pub const FORMAT_ETC2_R8G8B8A8_SRGB_BLOCK: i32 = 152;
/// Vulkan format code of `EAC_R11_UNORM_BLOCK`.
pub const FORMAT_EAC_R11_UNORM_BLOCK: i32 = 153;
/// Vulkan format code of `EAC_R11_SNORM_BLOCK`.
pub const FORMAT_EAC_R11_SNORM_BLOCK: i32 = 154;
/// Vulkan format code of `EAC_R11G11_UNORM_BLOCK`.
pub const FORMAT_EAC_R11G11_UNORM_BLOCK: i32 = 155;
/// Vulkan format code of `EAC_R11G11_SNORM_BLOCK`.
pub const FORMAT_EAC_R11G11_SNORM_BLOCK: i32 = 156;
/// Vulkan format code of `ASTC_4X4_UNORM_BLOCK`.
pub const FORMAT_ASTC_4X4_UNORM_BLOCK: i32 = 157;
/// Vulkan format code of `ASTC_4X4_SRGB_BLOCK`.
pub const FORMAT_ASTC_4X4_SRGB_BLOCK: i32 = 158;
/// Vulkan format code of `ASTC_4X4_SFLOAT_BLOCK`.
pub const FORMAT_ASTC_4X4_SFLOAT_BLOCK: i32 = 1000066000;
/// Vulkan format code of `ASTC_5X4_UNORM_BLOCK`.
pub const FORMAT_ASTC_5X4_UNORM_BLOCK: i32 = 159;
/// Vulkan format code of `ASTC_5X4_SRGB_BLOCK`.
pub const FORMAT_ASTC_5X4_SRGB_BLOCK: i32 = 160;
/// Vulkan format code of `ASTC_5X4_SFLOAT_BLOCK`.
pub const FORMAT_ASTC_5X4_SFLOAT_BLOCK: i32 = 1000066001;
/// Vulkan format code of `ASTC_5X5_UNORM_BLOCK`.
pub const FORMAT_ASTC_5X5_UNORM_BLOCK: i32 = 161;
/// Vulkan format code of `ASTC_5X5_SRGB_BLOCK`.
pub const FORMAT_ASTC_5X5_SRGB_BLOCK: i32 = 162;
/// Vulkan format code of `ASTC_5X5_SFLOAT_BLOCK`.
pub const FORMAT_ASTC_5X5_SFLOAT_BLOCK: i32 = 1000066002;
/// Vulkan format code of `ASTC_6X5_UNORM_BLOCK`.
pub const FORMAT_ASTC_6X5_UNORM_BLOCK: i32 = 163;
/// Vulkan format code of `ASTC_6X5_SRGB_BLOCK`.
pub const FORMAT_ASTC_6X5_SRGB_BLOCK: i32 = 164;
/// Vulkan format code of `ASTC_6X5_SFLOAT_BLOCK`.
pub const FORMAT_ASTC_6X5_SFLOAT_BLOCK: i32 = 1000066003;
/// Vulkan format code of `ASTC_6X6_UNORM_BLOCK`.
pub const FORMAT_ASTC_6X6_UNORM_BLOCK: i32 = 165;
/// Vulkan format code of `ASTC_6X6_SRGB_BLOCK`.
pub const FORMAT_ASTC_6X6_SRGB_BLOCK: i32 = 166;
/// Vulkan format code of `ASTC_6X6_SFLOAT_BLOCK`.
pub const FORMAT_ASTC_6X6_SFLOAT_BLOCK: i32 = 1000066004;
/// Vulkan format code of `ASTC_8X5_UNORM_BLOCK`.
pub const FORMAT_ASTC_8X5_UNORM_BLOCK: i32 = 167;
/// Vulkan format code of `ASTC_8X5_SRGB_BLOCK`.
pub const FORMAT_ASTC_8X5_SRGB_BLOCK: i32 = 168;
/// Vulkan format code of `ASTC_8X5_SFLOAT_BLOCK`.
pub const FORMAT_ASTC_8X5_SFLOAT_BLOCK: i32 = 1000066005;
/// Vulkan format code of `ASTC_8X6_UNORM_BLOCK`.
pub const FORMAT_ASTC_8X6_UNORM_BLOCK: i32 = 169;
/// Vulkan format code of `ASTC_8X6_SRGB_BLOCK`.
pub const FORMAT_ASTC_8X6_SRGB_BLOCK: i32 = 170;
/// Vulkan format code of `ASTC_8X6_SFLOAT_BLOCK`.
pub const FORMAT_ASTC_8X6_SFLOAT_BLOCK: i32 = 1000066006;
/// Vulkan format code of `ASTC_8X8_UNORM_BLOCK`.
pub const FORMAT_ASTC_8X8_UNORM_BLOCK: i32 = 171;
/// Vulkan format code of `ASTC_8X8_SRGB_BLOCK`.
pub const FORMAT_ASTC_8X8_SRGB_BLOCK: i32 = 172;
/// Vulkan format code of `ASTC_8X8_SFLOAT_BLOCK`.
pub const FORMAT_ASTC_8X8_SFLOAT_BLOCK: i32 = 1000066007;
/// Vulkan format code of `ASTC_10X5_UNORM_BLOCK`.
pub const FORMAT_ASTC_10X5_UNORM_BLOCK: i32 = 173;
/// Vulkan format code of `ASTC_10X5_SRGB_BLOCK`.
pub const FORMAT_ASTC_10X5_SRGB_BLOCK: i32 = 174;
/// Vulkan format code of `ASTC_10X5_SFLOAT_BLOCK`.
pub const FORMAT_ASTC_10X5_SFLOAT_BLOCK: i32 = 1000066008;
/// Vulkan format code of `ASTC_10X6_UNORM_BLOCK`.
pub const FORMAT_ASTC_10X6_UNORM_BLOCK: i32 = 175;
/// Vulkan format code of `ASTC_10X6_SRGB_BLOCK`.
pub const FORMAT_ASTC_10X6_SRGB_BLOCK: i32 = 176;
/// Vulkan format code of `ASTC_10X6_SFLOAT_BLOCK`.
pub const FORMAT_ASTC_10X6_SFLOAT_BLOCK: i32 = 1000066009;
/// Vulkan format code of `ASTC_10X8_UNORM_BLOCK`.
pub const FORMAT_ASTC_10X8_UNORM_BLOCK: i32 = 177;
/// Vulkan format code of `ASTC_10X8_SRGB_BLOCK`.
pub const FORMAT_ASTC_10X8_SRGB_BLOCK: i32 = 178;
/// Vulkan format code of `ASTC_10X8_SFLOAT_BLOCK`.
pub const FORMAT_ASTC_10X8_SFLOAT_BLOCK: i32 = 1000066010;
/// Vulkan format code of `ASTC_10X10_UNORM_BLOCK`.
pub const FORMAT_ASTC_10X10_UNORM_BLOCK: i32 = 179;
/// Vulkan format code of `ASTC_10X10_SRGB_BLOCK`.
pub const FORMAT_ASTC_10X10_SRGB_BLOCK: i32 = 180;
/// Vulkan format code of `ASTC_10X10_SFLOAT_BLOCK`.
pub const FORMAT_ASTC_10X10_SFLOAT_BLOCK: i32 = 1000066011;
/// Vulkan format code of `ASTC_12X10_UNORM_BLOCK`.
pub const FORMAT_ASTC_12X10_UNORM_BLOCK: i32 = 181;
/// Vulkan format code of `ASTC_12X10_SRGB_BLOCK`.
pub const FORMAT_ASTC_12X10_SRGB_BLOCK: i32 = 182;
/// Vulkan format code of `ASTC_12X10_SFLOAT_BLOCK`.
pub const FORMAT_ASTC_12X10_SFLOAT_BLOCK: i32 = 1000066012;
/// Vulkan format code of `ASTC_12X12_UNORM_BLOCK`.
pub const FORMAT_ASTC_12X12_UNORM_BLOCK: i32 = 183;
/// Vulkan format code of `ASTC_12X12_SRGB_BLOCK`.
pub const FORMAT_ASTC_12X12_SRGB_BLOCK: i32 = 184;
/// Vulkan format code of `ASTC_12X12_SFLOAT_BLOCK`.
pub const FORMAT_ASTC_12X12_SFLOAT_BLOCK: i32 = 1000066013;

/// Block size of an ASTC compressed format.
#[derive(Clone, Copy, Debug, PartialEq, Eq, Hash, Structural)]
pub enum AstcBlock {
    B4x4,
    B5x4,
    B5x5,
    B6x5,
    B6x6,
    B8x5,
    B8x6,
    B8x8,
    B10x5,
    B10x6,
    B10x8,
    B10x10,
    B12x10,
    B12x12,
}

/// Channel kind of an ASTC compressed format.
#[derive(Clone, Copy, Debug, PartialEq, Eq, Hash, Structural)]
pub enum AstcChannel {
    Unorm,
    UnormSrgb,
    Hdr,
}

/// A texture format as wgpu describes it.
#[derive(Clone, Copy, Debug, PartialEq, Eq, Hash, Structural)]
pub enum TextureFormat {
    R8Unorm,
    R8Snorm,
    R8Uint,
    R8Sint,
    R16Uint,
    R16Sint,
    R16Unorm,
    R16Snorm,
    R16Float,
    Rg8Unorm,
    Rg8Snorm,
    Rg8Uint,
    Rg8Sint,
    Rg16Unorm,
    Rg16Snorm,
    R32Uint,
    R32Sint,
    R32Float,
    Rg16Uint,
    Rg16Sint,
    Rg16Float,
    Rgba8Unorm,
    Rgba8UnormSrgb,
    Bgra8UnormSrgb,
    Rgba8Snorm,
    Bgra8Unorm,
    Rgba8Uint,
    Rgba8Sint,
    Rgb10a2Uint,
    Rgb10a2Unorm,
    Rg11b10Ufloat,
    Rg32Uint,
    Rg32Sint,
    Rg32Float,
    Rgba16Uint,
    Rgba16Sint,
    Rgba16Unorm,
    Rgba16Snorm,
    Rgba16Float,
    Rgba32Uint,
    Rgba32Sint,
    Rgba32Float,
    Depth32Float,
    Depth32FloatStencil8,
    Depth24Plus,
    Depth24PlusStencil8,
    Stencil8,
    Depth16Unorm,
    NV12,
    Rgb9e5Ufloat,
    Bc1RgbaUnorm,
    Bc1RgbaUnormSrgb,
    Bc2RgbaUnorm,
    Bc2RgbaUnormSrgb,
    Bc3RgbaUnorm,
    Bc3RgbaUnormSrgb,
    Bc4RUnorm,
    Bc4RSnorm,
    Bc5RgUnorm,
    Bc5RgSnorm,
    Bc6hRgbUfloat,
    Bc6hRgbFloat,
    Bc7RgbaUnorm,
    Bc7RgbaUnormSrgb,
    Etc2Rgb8Unorm,
    Etc2Rgb8UnormSrgb,
    Etc2Rgb8A1Unorm,
    Etc2Rgb8A1UnormSrgb,
    Etc2Rgba8Unorm,
    Etc2Rgba8UnormSrgb,
    EacR11Unorm,
    EacR11Snorm,
    EacRg11Unorm,
    EacRg11Snorm,
    Astc { block: AstcBlock, channel: AstcChannel },
}

/// Position of an ASTC block size in Vulkan's list of ASTC formats.
pub open spec fn astc_block_rank(b: AstcBlock) -> int {
    match b {
        AstcBlock::B4x4 => 0,
        AstcBlock::B5x4 => 1,
        AstcBlock::B5x5 => 2,
        AstcBlock::B6x5 => 3,
        AstcBlock::B6x6 => 4,
        AstcBlock::B8x5 => 5,
        AstcBlock::B8x6 => 6,
        AstcBlock::B8x8 => 7,
        AstcBlock::B10x5 => 8,
        AstcBlock::B10x6 => 9,
        AstcBlock::B10x8 => 10,
        AstcBlock::B10x10 => 11,
        AstcBlock::B12x10 => 12,
        AstcBlock::B12x12 => 13,
    }
}

/// The Vulkan format a wgpu format stands for. Each ASTC block size has three
/// formats: unorm and srgb alternate from code 157 on, the HDR (float) ones
/// are numbered from 1000066000 on, in the same order of block sizes.
pub open spec fn vk_format_of(f: TextureFormat) -> int {
    match f {
        TextureFormat::R8Unorm => FORMAT_R8_UNORM as int,
        TextureFormat::R8Snorm => FORMAT_R8_SNORM as int,
        TextureFormat::R8Uint => FORMAT_R8_UINT as int,
        TextureFormat::R8Sint => FORMAT_R8_SINT as int,
        TextureFormat::R16Uint => FORMAT_R16_UINT as int,
        TextureFormat::R16Sint => FORMAT_R16_SINT as int,
        TextureFormat::R16Unorm => FORMAT_R16_UNORM as int,
        TextureFormat::R16Snorm => FORMAT_R16_SNORM as int,
        TextureFormat::R16Float => FORMAT_R16_SFLOAT as int,
        TextureFormat::Rg8Unorm => FORMAT_R8G8_UNORM as int,
        TextureFormat::Rg8Snorm => FORMAT_R8G8_SNORM as int,
        TextureFormat::Rg8Uint => FORMAT_R8G8_UINT as int,
        TextureFormat::Rg8Sint => FORMAT_R8G8_SINT as int,
        TextureFormat::Rg16Unorm => FORMAT_R16G16_UNORM as int,
        TextureFormat::Rg16Snorm => FORMAT_R16G16_SNORM as int,
        TextureFormat::R32Uint => FORMAT_R32_UINT as int,
        TextureFormat::R32Sint => FORMAT_R32_SINT as int,
        TextureFormat::R32Float => FORMAT_R32_SFLOAT as int,
        TextureFormat::Rg16Uint => FORMAT_R16G16_UINT as int,
        TextureFormat::Rg16Sint => FORMAT_R16G16_SINT as int,
        TextureFormat::Rg16Float => FORMAT_R16G16_SFLOAT as int,
        TextureFormat::Rgba8Unorm => FORMAT_R8G8B8A8_UNORM as int,
        TextureFormat::Rgba8UnormSrgb => FORMAT_R8G8B8A8_SRGB as int,
        TextureFormat::Bgra8UnormSrgb => FORMAT_B8G8R8A8_SRGB as int,
        TextureFormat::Rgba8Snorm => FORMAT_R8G8B8A8_SNORM as int,
        TextureFormat::Bgra8Unorm => FORMAT_B8G8R8A8_UNORM as int,
        TextureFormat::Rgba8Uint => FORMAT_R8G8B8A8_UINT as int,
        TextureFormat::Rgba8Sint => FORMAT_R8G8B8A8_SINT as int,
        TextureFormat::Rgb10a2Uint => FORMAT_A2B10G10R10_UINT_PACK32 as int,
        TextureFormat::Rgb10a2Unorm => FORMAT_A2B10G10R10_UNORM_PACK32 as int,
        TextureFormat::Rg11b10Ufloat => FORMAT_B10G11R11_UFLOAT_PACK32 as int,
        TextureFormat::Rg32Uint => FORMAT_R32G32_UINT as int,
        TextureFormat::Rg32Sint => FORMAT_R32G32_SINT as int,
        TextureFormat::Rg32Float => FORMAT_R32G32_SFLOAT as int,
        TextureFormat::Rgba16Uint => FORMAT_R16G16B16A16_UINT as int,
        TextureFormat::Rgba16Sint => FORMAT_R16G16B16A16_SINT as int,
        TextureFormat::Rgba16Unorm => FORMAT_R16G16B16A16_UNORM as int,
        TextureFormat::Rgba16Snorm => FORMAT_R16G16B16A16_SNORM as int,
        TextureFormat::Rgba16Float => FORMAT_R16G16B16A16_SFLOAT as int,
        TextureFormat::Rgba32Uint => FORMAT_R32G32B32A32_UINT as int,
        TextureFormat::Rgba32Sint => FORMAT_R32G32B32A32_SINT as int,
        TextureFormat::Rgba32Float => FORMAT_R32G32B32A32_SFLOAT as int,
        TextureFormat::Depth32Float => FORMAT_D32_SFLOAT as int,
        TextureFormat::Depth32FloatStencil8 => FORMAT_D32_SFLOAT_S8_UINT as int,
        TextureFormat::Depth24Plus => FORMAT_X8_D24_UNORM_PACK32 as int,
        TextureFormat::Depth24PlusStencil8 => FORMAT_D24_UNORM_S8_UINT as int,
        TextureFormat::Stencil8 => FORMAT_S8_UINT as int,
        TextureFormat::Depth16Unorm => FORMAT_D16_UNORM as int,
        TextureFormat::NV12 => FORMAT_G8_B8R8_2PLANE_420_UNORM as int,
        TextureFormat::Rgb9e5Ufloat => FORMAT_E5B9G9R9_UFLOAT_PACK32 as int,
        TextureFormat::Bc1RgbaUnorm => FORMAT_BC1_RGBA_UNORM_BLOCK as int,
        TextureFormat::Bc1RgbaUnormSrgb => FORMAT_BC1_RGBA_SRGB_BLOCK as int,
        TextureFormat::Bc2RgbaUnorm => FORMAT_BC2_UNORM_BLOCK as int,
        TextureFormat::Bc2RgbaUnormSrgb => FORMAT_BC2_SRGB_BLOCK as int,
        TextureFormat::Bc3RgbaUnorm => FORMAT_BC3_UNORM_BLOCK as int,
        TextureFormat::Bc3RgbaUnormSrgb => FORMAT_BC3_SRGB_BLOCK as int,
        TextureFormat::Bc4RUnorm => FORMAT_BC4_UNORM_BLOCK as int,
        TextureFormat::Bc4RSnorm => FORMAT_BC4_SNORM_BLOCK as int,
        TextureFormat::Bc5RgUnorm => FORMAT_BC5_UNORM_BLOCK as int,
        TextureFormat::Bc5RgSnorm => FORMAT_BC5_SNORM_BLOCK as int,
        TextureFormat::Bc6hRgbUfloat => FORMAT_BC6H_UFLOAT_BLOCK as int,
        TextureFormat::Bc6hRgbFloat => FORMAT_BC6H_SFLOAT_BLOCK as int,
        TextureFormat::Bc7RgbaUnorm => FORMAT_BC7_UNORM_BLOCK as int,
        TextureFormat::Bc7RgbaUnormSrgb => FORMAT_BC7_SRGB_BLOCK as int,
        TextureFormat::Etc2Rgb8Unorm => FORMAT_ETC2_R8G8B8_UNORM_BLOCK as int,
        TextureFormat::Etc2Rgb8UnormSrgb => FORMAT_ETC2_R8G8B8_SRGB_BLOCK as int,
        TextureFormat::Etc2Rgb8A1Unorm => FORMAT_ETC2_R8G8B8A1_UNORM_BLOCK as int,
        TextureFormat::Etc2Rgb8A1UnormSrgb => FORMAT_ETC2_R8G8B8A1_SRGB_BLOCK as int,
        TextureFormat::Etc2Rgba8Unorm => FORMAT_ETC2_R8G8B8A8_UNORM_BLOCK as int,
        TextureFormat::Etc2Rgba8UnormSrgb => FORMAT_ETC2_R8G8B8A8_SRGB_BLOCK as int,
        TextureFormat::EacR11Unorm => FORMAT_EAC_R11_UNORM_BLOCK as int,
        TextureFormat::EacR11Snorm => FORMAT_EAC_R11_SNORM_BLOCK as int,
        TextureFormat::EacRg11Unorm => FORMAT_EAC_R11G11_UNORM_BLOCK as int,
        TextureFormat::EacRg11Snorm => FORMAT_EAC_R11G11_SNORM_BLOCK as int,
        TextureFormat::Astc { block, channel } => match channel {
            AstcChannel::Unorm => FORMAT_ASTC_4X4_UNORM_BLOCK + 2 * astc_block_rank(block),
            AstcChannel::UnormSrgb => FORMAT_ASTC_4X4_SRGB_BLOCK + 2 * astc_block_rank(block),
            AstcChannel::Hdr => FORMAT_ASTC_4X4_SFLOAT_BLOCK + astc_block_rank(block),
        },
    }
}

/// Maps a wgpu format to the Vulkan format it stands for. Device capabilities
/// are not taken into account: a device may lack the format that comes out.
pub fn map_wgpu_to_vk_texture_format(format: TextureFormat) -> (r: i32)
    ensures
        r == vk_format_of(format),
{
    match format {
        TextureFormat::R8Unorm => FORMAT_R8_UNORM,
        TextureFormat::R8Snorm => FORMAT_R8_SNORM,
        TextureFormat::R8Uint => FORMAT_R8_UINT,
        TextureFormat::R8Sint => FORMAT_R8_SINT,
        TextureFormat::R16Uint => FORMAT_R16_UINT,
        TextureFormat::R16Sint => FORMAT_R16_SINT,
        TextureFormat::R16Unorm => FORMAT_R16_UNORM,
        TextureFormat::R16Snorm => FORMAT_R16_SNORM,
        TextureFormat::R16Float => FORMAT_R16_SFLOAT,
        TextureFormat::Rg8Unorm => FORMAT_R8G8_UNORM,
        TextureFormat::Rg8Snorm => FORMAT_R8G8_SNORM,
        TextureFormat::Rg8Uint => FORMAT_R8G8_UINT,
        TextureFormat::Rg8Sint => FORMAT_R8G8_SINT,
        TextureFormat::Rg16Unorm => FORMAT_R16G16_UNORM,
        TextureFormat::Rg16Snorm => FORMAT_R16G16_SNORM,
        TextureFormat::R32Uint => FORMAT_R32_UINT,
        TextureFormat::R32Sint => FORMAT_R32_SINT,
        TextureFormat::R32Float => FORMAT_R32_SFLOAT,
        TextureFormat::Rg16Uint => FORMAT_R16G16_UINT,
        TextureFormat::Rg16Sint => FORMAT_R16G16_SINT,
        TextureFormat::Rg16Float => FORMAT_R16G16_SFLOAT,
        TextureFormat::Rgba8Unorm => FORMAT_R8G8B8A8_UNORM,
        TextureFormat::Rgba8UnormSrgb => FORMAT_R8G8B8A8_SRGB,
        TextureFormat::Bgra8UnormSrgb => FORMAT_B8G8R8A8_SRGB,
        TextureFormat::Rgba8Snorm => FORMAT_R8G8B8A8_SNORM,
        TextureFormat::Bgra8Unorm => FORMAT_B8G8R8A8_UNORM,
        TextureFormat::Rgba8Uint => FORMAT_R8G8B8A8_UINT,
        TextureFormat::Rgba8Sint => FORMAT_R8G8B8A8_SINT,
        TextureFormat::Rgb10a2Uint => FORMAT_A2B10G10R10_UINT_PACK32,
        TextureFormat::Rgb10a2Unorm => FORMAT_A2B10G10R10_UNORM_PACK32,
        TextureFormat::Rg11b10Ufloat => FORMAT_B10G11R11_UFLOAT_PACK32,
        TextureFormat::Rg32Uint => FORMAT_R32G32_UINT,
        TextureFormat::Rg32Sint => FORMAT_R32G32_SINT,
        TextureFormat::Rg32Float => FORMAT_R32G32_SFLOAT,
        TextureFormat::Rgba16Uint => FORMAT_R16G16B16A16_UINT,
        TextureFormat::Rgba16Sint => FORMAT_R16G16B16A16_SINT,
        TextureFormat::Rgba16Unorm => FORMAT_R16G16B16A16_UNORM,
        TextureFormat::Rgba16Snorm => FORMAT_R16G16B16A16_SNORM,
        TextureFormat::Rgba16Float => FORMAT_R16G16B16A16_SFLOAT,
        TextureFormat::Rgba32Uint => FORMAT_R32G32B32A32_UINT,
        TextureFormat::Rgba32Sint => FORMAT_R32G32B32A32_SINT,
        TextureFormat::Rgba32Float => FORMAT_R32G32B32A32_SFLOAT,
        TextureFormat::Depth32Float => FORMAT_D32_SFLOAT,
        TextureFormat::Depth32FloatStencil8 => FORMAT_D32_SFLOAT_S8_UINT,
        TextureFormat::Depth24Plus => FORMAT_X8_D24_UNORM_PACK32,
        TextureFormat::Depth24PlusStencil8 => FORMAT_D24_UNORM_S8_UINT,
        TextureFormat::Stencil8 => FORMAT_S8_UINT,
        TextureFormat::Depth16Unorm => FORMAT_D16_UNORM,
        TextureFormat::NV12 => FORMAT_G8_B8R8_2PLANE_420_UNORM,
        TextureFormat::Rgb9e5Ufloat => FORMAT_E5B9G9R9_UFLOAT_PACK32,
        TextureFormat::Bc1RgbaUnorm => FORMAT_BC1_RGBA_UNORM_BLOCK,
        TextureFormat::Bc1RgbaUnormSrgb => FORMAT_BC1_RGBA_SRGB_BLOCK,
        TextureFormat::Bc2RgbaUnorm => FORMAT_BC2_UNORM_BLOCK,
        TextureFormat::Bc2RgbaUnormSrgb => FORMAT_BC2_SRGB_BLOCK,
        TextureFormat::Bc3RgbaUnorm => FORMAT_BC3_UNORM_BLOCK,
        TextureFormat::Bc3RgbaUnormSrgb => FORMAT_BC3_SRGB_BLOCK,
        TextureFormat::Bc4RUnorm => FORMAT_BC4_UNORM_BLOCK,
        TextureFormat::Bc4RSnorm => FORMAT_BC4_SNORM_BLOCK,
        TextureFormat::Bc5RgUnorm => FORMAT_BC5_UNORM_BLOCK,
        TextureFormat::Bc5RgSnorm => FORMAT_BC5_SNORM_BLOCK,
        TextureFormat::Bc6hRgbUfloat => FORMAT_BC6H_UFLOAT_BLOCK,
        TextureFormat::Bc6hRgbFloat => FORMAT_BC6H_SFLOAT_BLOCK,
        TextureFormat::Bc7RgbaUnorm => FORMAT_BC7_UNORM_BLOCK,
        TextureFormat::Bc7RgbaUnormSrgb => FORMAT_BC7_SRGB_BLOCK,
        TextureFormat::Etc2Rgb8Unorm => FORMAT_ETC2_R8G8B8_UNORM_BLOCK,
        TextureFormat::Etc2Rgb8UnormSrgb => FORMAT_ETC2_R8G8B8_SRGB_BLOCK,
        TextureFormat::Etc2Rgb8A1Unorm => FORMAT_ETC2_R8G8B8A1_UNORM_BLOCK,
        TextureFormat::Etc2Rgb8A1UnormSrgb => FORMAT_ETC2_R8G8B8A1_SRGB_BLOCK,
        TextureFormat::Etc2Rgba8Unorm => FORMAT_ETC2_R8G8B8A8_UNORM_BLOCK,
        TextureFormat::Etc2Rgba8UnormSrgb => FORMAT_ETC2_R8G8B8A8_SRGB_BLOCK,
        TextureFormat::EacR11Unorm => FORMAT_EAC_R11_UNORM_BLOCK,
        TextureFormat::EacR11Snorm => FORMAT_EAC_R11_SNORM_BLOCK,
        TextureFormat::EacRg11Unorm => FORMAT_EAC_R11G11_UNORM_BLOCK,
        TextureFormat::EacRg11Snorm => FORMAT_EAC_R11G11_SNORM_BLOCK,
        TextureFormat::Astc { block, channel } => match channel {
            AstcChannel::Unorm => match block {
                AstcBlock::B4x4 => FORMAT_ASTC_4X4_UNORM_BLOCK,
                AstcBlock::B5x4 => FORMAT_ASTC_5X4_UNORM_BLOCK,
                AstcBlock::B5x5 => FORMAT_ASTC_5X5_UNORM_BLOCK,
                AstcBlock::B6x5 => FORMAT_ASTC_6X5_UNORM_BLOCK,
                AstcBlock::B6x6 => FORMAT_ASTC_6X6_UNORM_BLOCK,
                AstcBlock::B8x5 => FORMAT_ASTC_8X5_UNORM_BLOCK,
                AstcBlock::B8x6 => FORMAT_ASTC_8X6_UNORM_BLOCK,
                AstcBlock::B8x8 => FORMAT_ASTC_8X8_UNORM_BLOCK,
                AstcBlock::B10x5 => FORMAT_ASTC_10X5_UNORM_BLOCK,
                AstcBlock::B10x6 => FORMAT_ASTC_10X6_UNORM_BLOCK,
                AstcBlock::B10x8 => FORMAT_ASTC_10X8_UNORM_BLOCK,
                AstcBlock::B10x10 => FORMAT_ASTC_10X10_UNORM_BLOCK,
                AstcBlock::B12x10 => FORMAT_ASTC_12X10_UNORM_BLOCK,
                AstcBlock::B12x12 => FORMAT_ASTC_12X12_UNORM_BLOCK,
            },
            AstcChannel::UnormSrgb => match block {
                AstcBlock::B4x4 => FORMAT_ASTC_4X4_SRGB_BLOCK,
                AstcBlock::B5x4 => FORMAT_ASTC_5X4_SRGB_BLOCK,
                AstcBlock::B5x5 => FORMAT_ASTC_5X5_SRGB_BLOCK,
                AstcBlock::B6x5 => FORMAT_ASTC_6X5_SRGB_BLOCK,
                AstcBlock::B6x6 => FORMAT_ASTC_6X6_SRGB_BLOCK,
                AstcBlock::B8x5 => FORMAT_ASTC_8X5_SRGB_BLOCK,
                AstcBlock::B8x6 => FORMAT_ASTC_8X6_SRGB_BLOCK,
                AstcBlock::B8x8 => FORMAT_ASTC_8X8_SRGB_BLOCK,
                AstcBlock::B10x5 => FORMAT_ASTC_10X5_SRGB_BLOCK,
                AstcBlock::B10x6 => FORMAT_ASTC_10X6_SRGB_BLOCK,
                AstcBlock::B10x8 => FORMAT_ASTC_10X8_SRGB_BLOCK,
                AstcBlock::B10x10 => FORMAT_ASTC_10X10_SRGB_BLOCK,
                AstcBlock::B12x10 => FORMAT_ASTC_12X10_SRGB_BLOCK,
                AstcBlock::B12x12 => FORMAT_ASTC_12X12_SRGB_BLOCK,
            },
            AstcChannel::Hdr => match block {
                AstcBlock::B4x4 => FORMAT_ASTC_4X4_SFLOAT_BLOCK,
                AstcBlock::B5x4 => FORMAT_ASTC_5X4_SFLOAT_BLOCK,
                AstcBlock::B5x5 => FORMAT_ASTC_5X5_SFLOAT_BLOCK,
                AstcBlock::B6x5 => FORMAT_ASTC_6X5_SFLOAT_BLOCK,
                AstcBlock::B6x6 => FORMAT_ASTC_6X6_SFLOAT_BLOCK,
                AstcBlock::B8x5 => FORMAT_ASTC_8X5_SFLOAT_BLOCK,
                AstcBlock::B8x6 => FORMAT_ASTC_8X6_SFLOAT_BLOCK,
                AstcBlock::B8x8 => FORMAT_ASTC_8X8_SFLOAT_BLOCK,
                AstcBlock::B10x5 => FORMAT_ASTC_10X5_SFLOAT_BLOCK,
                AstcBlock::B10x6 => FORMAT_ASTC_10X6_SFLOAT_BLOCK,
                AstcBlock::B10x8 => FORMAT_ASTC_10X8_SFLOAT_BLOCK,
                AstcBlock::B10x10 => FORMAT_ASTC_10X10_SFLOAT_BLOCK,
                AstcBlock::B12x10 => FORMAT_ASTC_12X10_SFLOAT_BLOCK,
                AstcBlock::B12x12 => FORMAT_ASTC_12X12_SFLOAT_BLOCK,
            },
        },
    }
}


/// The formats that the mapping from Vulkan back to wgpu knows: all but the
/// block-compressed ones (BC, ETC2, EAC, ASTC) and `Rgb9e5Ufloat`.
pub open spec fn has_reverse_mapping(f: TextureFormat) -> bool {
    match f {
        TextureFormat::Rgb9e5Ufloat
        | TextureFormat::Bc1RgbaUnorm
        | TextureFormat::Bc1RgbaUnormSrgb
        | TextureFormat::Bc2RgbaUnorm
        | TextureFormat::Bc2RgbaUnormSrgb
        | TextureFormat::Bc3RgbaUnorm
        | TextureFormat::Bc3RgbaUnormSrgb
        | TextureFormat::Bc4RUnorm
        | TextureFormat::Bc4RSnorm
        | TextureFormat::Bc5RgUnorm
        | TextureFormat::Bc5RgSnorm
        | TextureFormat::Bc6hRgbUfloat
        | TextureFormat::Bc6hRgbFloat
        | TextureFormat::Bc7RgbaUnorm
        | TextureFormat::Bc7RgbaUnormSrgb
        | TextureFormat::Etc2Rgb8Unorm
        | TextureFormat::Etc2Rgb8UnormSrgb
        | TextureFormat::Etc2Rgb8A1Unorm
        | TextureFormat::Etc2Rgb8A1UnormSrgb
        | TextureFormat::Etc2Rgba8Unorm
        | TextureFormat::Etc2Rgba8UnormSrgb
        | TextureFormat::EacR11Unorm
        | TextureFormat::EacR11Snorm
        | TextureFormat::EacRg11Unorm
        | TextureFormat::EacRg11Snorm
        | TextureFormat::Astc { .. } => false,
        _ => true,
    }
}

/// Two formats that the reverse mapping knows and that stand for the same
/// Vulkan format are the same format.
pub proof fn lemma_reverse_mapped_codes_distinct(a: TextureFormat, b: TextureFormat)
    requires
        has_reverse_mapping(a),
        has_reverse_mapping(b),
        vk_format_of(a) == vk_format_of(b),
    ensures
        a == b,
{
}

/// The wgpu format, among those the reverse mapping knows, that stands for
/// the Vulkan format `code`; none where there is none.
pub open spec fn wgpu_format_of_vk(code: int) -> Option<TextureFormat> {
    if exists|f: TextureFormat| has_reverse_mapping(f) && #[trigger] vk_format_of(f) == code {
        Some(choose|f: TextureFormat| has_reverse_mapping(f) && #[trigger] vk_format_of(f) == code)
    } else {
        None
    }
}

/// Maps a Vulkan format code to the wgpu format it stands for, where the
/// reverse mapping knows one.
pub fn map_vk_to_wgpu_texture_format(format: i32) -> (r: Option<TextureFormat>)
    ensures
        r == wgpu_format_of_vk(format as int),
{
    let r = match format {
        FORMAT_R8_UNORM => Some(TextureFormat::R8Unorm),
        FORMAT_R8_SNORM => Some(TextureFormat::R8Snorm),
        FORMAT_R8_UINT => Some(TextureFormat::R8Uint),
        FORMAT_R8_SINT => Some(TextureFormat::R8Sint),
        FORMAT_R16_UINT => Some(TextureFormat::R16Uint),
        FORMAT_R16_SINT => Some(TextureFormat::R16Sint),
        FORMAT_R16_UNORM => Some(TextureFormat::R16Unorm),
        FORMAT_R16_SNORM => Some(TextureFormat::R16Snorm),
        FORMAT_R16_SFLOAT => Some(TextureFormat::R16Float),
        FORMAT_R8G8_UNORM => Some(TextureFormat::Rg8Unorm),
        FORMAT_R8G8_SNORM => Some(TextureFormat::Rg8Snorm),
        FORMAT_R8G8_UINT => Some(TextureFormat::Rg8Uint),
        FORMAT_R8G8_SINT => Some(TextureFormat::Rg8Sint),
        FORMAT_R16G16_UNORM => Some(TextureFormat::Rg16Unorm),
        FORMAT_R16G16_SNORM => Some(TextureFormat::Rg16Snorm),
        FORMAT_R32_UINT => Some(TextureFormat::R32Uint),
        FORMAT_R32_SINT => Some(TextureFormat::R32Sint),
        FORMAT_R32_SFLOAT => Some(TextureFormat::R32Float),
        FORMAT_R16G16_UINT => Some(TextureFormat::Rg16Uint),
        FORMAT_R16G16_SINT => Some(TextureFormat::Rg16Sint),
        FORMAT_R16G16_SFLOAT => Some(TextureFormat::Rg16Float),
        FORMAT_R8G8B8A8_UNORM => Some(TextureFormat::Rgba8Unorm),
        FORMAT_R8G8B8A8_SRGB => Some(TextureFormat::Rgba8UnormSrgb),
        FORMAT_B8G8R8A8_SRGB => Some(TextureFormat::Bgra8UnormSrgb),
        FORMAT_R8G8B8A8_SNORM => Some(TextureFormat::Rgba8Snorm),
        FORMAT_B8G8R8A8_UNORM => Some(TextureFormat::Bgra8Unorm),
        FORMAT_R8G8B8A8_UINT => Some(TextureFormat::Rgba8Uint),
        FORMAT_R8G8B8A8_SINT => Some(TextureFormat::Rgba8Sint),
        FORMAT_A2B10G10R10_UINT_PACK32 => Some(TextureFormat::Rgb10a2Uint),
        FORMAT_A2B10G10R10_UNORM_PACK32 => Some(TextureFormat::Rgb10a2Unorm),
        FORMAT_B10G11R11_UFLOAT_PACK32 => Some(TextureFormat::Rg11b10Ufloat),
        FORMAT_R32G32_UINT => Some(TextureFormat::Rg32Uint),
        FORMAT_R32G32_SINT => Some(TextureFormat::Rg32Sint),
        FORMAT_R32G32_SFLOAT => Some(TextureFormat::Rg32Float),
        FORMAT_R16G16B16A16_UINT => Some(TextureFormat::Rgba16Uint),
        FORMAT_R16G16B16A16_SINT => Some(TextureFormat::Rgba16Sint),
        FORMAT_R16G16B16A16_UNORM => Some(TextureFormat::Rgba16Unorm),
        FORMAT_R16G16B16A16_SNORM => Some(TextureFormat::Rgba16Snorm),
        FORMAT_R16G16B16A16_SFLOAT => Some(TextureFormat::Rgba16Float),
        FORMAT_R32G32B32A32_UINT => Some(TextureFormat::Rgba32Uint),
        FORMAT_R32G32B32A32_SINT => Some(TextureFormat::Rgba32Sint),
        FORMAT_R32G32B32A32_SFLOAT => Some(TextureFormat::Rgba32Float),
        FORMAT_D32_SFLOAT => Some(TextureFormat::Depth32Float),
        FORMAT_D32_SFLOAT_S8_UINT => Some(TextureFormat::Depth32FloatStencil8),
        FORMAT_X8_D24_UNORM_PACK32 => Some(TextureFormat::Depth24Plus),
        FORMAT_D24_UNORM_S8_UINT => Some(TextureFormat::Depth24PlusStencil8),
        FORMAT_S8_UINT => Some(TextureFormat::Stencil8),
        FORMAT_D16_UNORM => Some(TextureFormat::Depth16Unorm),
        FORMAT_G8_B8R8_2PLANE_420_UNORM => Some(TextureFormat::NV12),
        _ => None,
    };
    proof {
        match r {
            Some(f) => {
                assert(has_reverse_mapping(f) && vk_format_of(f) == format as int);
                let g = choose|g: TextureFormat| has_reverse_mapping(g) && #[trigger] vk_format_of(g) == format as int;
                lemma_reverse_mapped_codes_distinct(f, g);
            },
            None => {
                assert forall|f: TextureFormat| has_reverse_mapping(f) implies #[trigger] vk_format_of(f) != format as int by {
                }
            },
        }
    }
    r
}

/// A wgpu format that the reverse mapping knows comes back unchanged from a
/// trip to Vulkan and back.
pub proof fn lemma_wgpu_format_round_trip(f: TextureFormat)
    requires
        has_reverse_mapping(f),
    ensures
        wgpu_format_of_vk(vk_format_of(f)) == Some(f),
{
    let g = choose|g: TextureFormat| has_reverse_mapping(g) && #[trigger] vk_format_of(g) == vk_format_of(f);
    lemma_reverse_mapped_codes_distinct(f, g);
}

/// A Vulkan format that maps to a wgpu format comes back unchanged from a
/// trip to wgpu and back.
pub proof fn lemma_vk_format_round_trip(code: int)
    requires
        wgpu_format_of_vk(code) is Some,
    ensures
        vk_format_of(wgpu_format_of_vk(code)->0) == code,
        has_reverse_mapping(wgpu_format_of_vk(code)->0),
{
}


/// Vulkan image usage bit: source of transfers.
pub const IMAGE_USAGE_TRANSFER_SRC: u32 = 0x1;
/// Vulkan image usage bit: destination of transfers.
pub const IMAGE_USAGE_TRANSFER_DST: u32 = 0x2;
/// Vulkan image usage bit: color attachment.
pub const IMAGE_USAGE_COLOR_ATTACHMENT: u32 = 0x10;
/// Vulkan image usage bit: depth/stencil attachment.
pub const IMAGE_USAGE_DEPTH_STENCIL_ATTACHMENT: u32 = 0x20;
/// Vulkan image usage bit: transient attachment.
pub const IMAGE_USAGE_TRANSIENT_ATTACHMENT: u32 = 0x40;
/// Vulkan image usage bit: input attachment.
pub const IMAGE_USAGE_INPUT_ATTACHMENT: u32 = 0x80;
/// Vulkan image usage bit: fragment shading rate attachment.
pub const IMAGE_USAGE_FRAGMENT_SHADING_RATE_ATTACHMENT: u32 = 0x100;
/// Vulkan image usage bit: attachment feedback loop.
pub const IMAGE_USAGE_ATTACHMENT_FEEDBACK_LOOP: u32 = 0x8_0000;

/// wgpu texture usage bit: source of copies.
pub const TEXTURE_USAGE_COPY_SRC: u32 = 0x1;
/// wgpu texture usage bit: destination of copies.
pub const TEXTURE_USAGE_COPY_DST: u32 = 0x2;
/// wgpu texture usage bit: bound as a sampled texture.
pub const TEXTURE_USAGE_TEXTURE_BINDING: u32 = 0x4;
/// wgpu texture usage bit: bound as a storage texture.
pub const TEXTURE_USAGE_STORAGE_BINDING: u32 = 0x8;
/// wgpu texture usage bit: render attachment.
pub const TEXTURE_USAGE_RENDER_ATTACHMENT: u32 = 0x10;

/// The wgpu usage that a single Vulkan image usage flag stands for: every
/// kind of attachment is a render attachment. Any other value, a combination
/// of flags among them, stands for none.
pub open spec fn wgpu_usage_of_vk(usage: u32) -> Option<u32> {
    if usage == IMAGE_USAGE_COLOR_ATTACHMENT || usage == IMAGE_USAGE_INPUT_ATTACHMENT
        || usage == IMAGE_USAGE_TRANSIENT_ATTACHMENT || usage == IMAGE_USAGE_ATTACHMENT_FEEDBACK_LOOP
        || usage == IMAGE_USAGE_DEPTH_STENCIL_ATTACHMENT || usage == IMAGE_USAGE_FRAGMENT_SHADING_RATE_ATTACHMENT {
        Some(TEXTURE_USAGE_RENDER_ATTACHMENT)
    } else if usage == IMAGE_USAGE_STORAGE {
        Some(TEXTURE_USAGE_STORAGE_BINDING)
    } else if usage == IMAGE_USAGE_SAMPLED {
        Some(TEXTURE_USAGE_TEXTURE_BINDING)
    } else if usage == IMAGE_USAGE_TRANSFER_SRC {
        Some(TEXTURE_USAGE_COPY_SRC)
    } else if usage == IMAGE_USAGE_TRANSFER_DST {
        Some(TEXTURE_USAGE_COPY_DST)
    } else {
        None
    }
}

/// Maps a single Vulkan image usage flag to the wgpu texture usage it stands
/// for; a value that is not one of the known flags maps to none.
pub fn map_vk_to_wgpu_texture_usage(usage: u32) -> (r: Option<u32>)
    ensures
        r == wgpu_usage_of_vk(usage),
{
    match usage {
        IMAGE_USAGE_COLOR_ATTACHMENT | IMAGE_USAGE_INPUT_ATTACHMENT | IMAGE_USAGE_TRANSIENT_ATTACHMENT
        | IMAGE_USAGE_ATTACHMENT_FEEDBACK_LOOP | IMAGE_USAGE_DEPTH_STENCIL_ATTACHMENT
        | IMAGE_USAGE_FRAGMENT_SHADING_RATE_ATTACHMENT => Some(TEXTURE_USAGE_RENDER_ATTACHMENT),
        IMAGE_USAGE_STORAGE => Some(TEXTURE_USAGE_STORAGE_BINDING),
        IMAGE_USAGE_SAMPLED => Some(TEXTURE_USAGE_TEXTURE_BINDING),
        IMAGE_USAGE_TRANSFER_SRC => Some(TEXTURE_USAGE_COPY_SRC),
        IMAGE_USAGE_TRANSFER_DST => Some(TEXTURE_USAGE_COPY_DST),
        _ => None,
    }
}

/// `flags` has every bit of `bits` set.
pub open spec fn has_bits(flags: u32, bits: u32) -> bool {
    flags & bits == bits
}

/// The Vulkan image usage flags for a set of wgpu texture usages: copies
/// become transfers, a render attachment a color attachment, storage and
/// texture bindings storage and sampled use. Other wgpu bits are dropped.
pub open spec fn vk_usage_of_wgpu(usage: u32) -> u32 {
    (if has_bits(usage, TEXTURE_USAGE_COPY_DST) { IMAGE_USAGE_TRANSFER_DST } else { 0 })
        | (if has_bits(usage, TEXTURE_USAGE_COPY_SRC) { IMAGE_USAGE_TRANSFER_SRC } else { 0 })
        | (if has_bits(usage, TEXTURE_USAGE_RENDER_ATTACHMENT) { IMAGE_USAGE_COLOR_ATTACHMENT } else { 0 })
        | (if has_bits(usage, TEXTURE_USAGE_STORAGE_BINDING) { IMAGE_USAGE_STORAGE } else { 0 })
        | (if has_bits(usage, TEXTURE_USAGE_TEXTURE_BINDING) { IMAGE_USAGE_SAMPLED } else { 0 })
}

/// Maps wgpu texture usages to Vulkan image usage flags. This is no
/// one-to-one translation: a render attachment always becomes a color
/// attachment, where an input attachment might do as well.
pub fn map_wgpu_to_vk_image_usage(usage: u32) -> (r: u32)
    ensures
        r == vk_usage_of_wgpu(usage),
{
    let copy_dst = if usage & TEXTURE_USAGE_COPY_DST == TEXTURE_USAGE_COPY_DST { IMAGE_USAGE_TRANSFER_DST } else { 0 };
    let copy_src = if usage & TEXTURE_USAGE_COPY_SRC == TEXTURE_USAGE_COPY_SRC { IMAGE_USAGE_TRANSFER_SRC } else { 0 };
    let render = if usage & TEXTURE_USAGE_RENDER_ATTACHMENT == TEXTURE_USAGE_RENDER_ATTACHMENT {
        IMAGE_USAGE_COLOR_ATTACHMENT
    } else {
        0
    };
    let storage = if usage & TEXTURE_USAGE_STORAGE_BINDING == TEXTURE_USAGE_STORAGE_BINDING {
        IMAGE_USAGE_STORAGE
    } else {
        0
    };
    let sampled = if usage & TEXTURE_USAGE_TEXTURE_BINDING == TEXTURE_USAGE_TEXTURE_BINDING {
        IMAGE_USAGE_SAMPLED
    } else {
        0
    };
    copy_dst | copy_src | render | storage | sampled
}

/// Each single wgpu texture usage comes back unchanged from a trip to Vulkan
/// and back.
pub proof fn lemma_single_usage_round_trip(usage: u32)
    requires
        usage == TEXTURE_USAGE_COPY_SRC || usage == TEXTURE_USAGE_COPY_DST || usage == TEXTURE_USAGE_TEXTURE_BINDING
            || usage == TEXTURE_USAGE_STORAGE_BINDING || usage == TEXTURE_USAGE_RENDER_ATTACHMENT,
    ensures
        wgpu_usage_of_vk(vk_usage_of_wgpu(usage)) == Some(usage),
{
    assert(vk_usage_of_wgpu(1) == 1) by (bit_vector);
    assert(vk_usage_of_wgpu(2) == 2) by (bit_vector);
    assert(vk_usage_of_wgpu(4) == 4) by (bit_vector);
    assert(vk_usage_of_wgpu(8) == 8) by (bit_vector);
    assert(vk_usage_of_wgpu(16) == 16) by (bit_vector);
}


/// Every wgpu format stands for the Vulkan format with the same channel
/// layout, bit depth and numeric type, by that format's code in the Vulkan
/// registry.
pub proof fn lemma_vk_format_codes()
    ensures
        vk_format_of(TextureFormat::R8Unorm) == 9,
        vk_format_of(TextureFormat::R8Snorm) == 10,
        vk_format_of(TextureFormat::R8Uint) == 13,
        vk_format_of(TextureFormat::R8Sint) == 14,
        vk_format_of(TextureFormat::R16Uint) == 74,
        vk_format_of(TextureFormat::R16Sint) == 75,
        vk_format_of(TextureFormat::R16Unorm) == 70,
        vk_format_of(TextureFormat::R16Snorm) == 71,
        vk_format_of(TextureFormat::R16Float) == 76,
        vk_format_of(TextureFormat::Rg8Unorm) == 16,
        vk_format_of(TextureFormat::Rg8Snorm) == 17,
        vk_format_of(TextureFormat::Rg8Uint) == 20,
        vk_format_of(TextureFormat::Rg8Sint) == 21,
        vk_format_of(TextureFormat::Rg16Unorm) == 77,
        vk_format_of(TextureFormat::Rg16Snorm) == 78,
        vk_format_of(TextureFormat::R32Uint) == 98,
        vk_format_of(TextureFormat::R32Sint) == 99,
        vk_format_of(TextureFormat::R32Float) == 100,
        vk_format_of(TextureFormat::Rg16Uint) == 81,
        vk_format_of(TextureFormat::Rg16Sint) == 82,
        vk_format_of(TextureFormat::Rg16Float) == 83,
        vk_format_of(TextureFormat::Rgba8Unorm) == 37,
        vk_format_of(TextureFormat::Rgba8UnormSrgb) == 43,
        vk_format_of(TextureFormat::Bgra8UnormSrgb) == 50,
        vk_format_of(TextureFormat::Rgba8Snorm) == 38,
        vk_format_of(TextureFormat::Bgra8Unorm) == 44,
        vk_format_of(TextureFormat::Rgba8Uint) == 41,
        vk_format_of(TextureFormat::Rgba8Sint) == 42,
        vk_format_of(TextureFormat::Rgb10a2Uint) == 68,
        vk_format_of(TextureFormat::Rgb10a2Unorm) == 64,
        vk_format_of(TextureFormat::Rg11b10Ufloat) == 122,
        vk_format_of(TextureFormat::Rg32Uint) == 101,
        vk_format_of(TextureFormat::Rg32Sint) == 102,
        vk_format_of(TextureFormat::Rg32Float) == 103,
        vk_format_of(TextureFormat::Rgba16Uint) == 95,
        vk_format_of(TextureFormat::Rgba16Sint) == 96,
        vk_format_of(TextureFormat::Rgba16Unorm) == 91,
        vk_format_of(TextureFormat::Rgba16Snorm) == 92,
        vk_format_of(TextureFormat::Rgba16Float) == 97,
        vk_format_of(TextureFormat::Rgba32Uint) == 107,
        vk_format_of(TextureFormat::Rgba32Sint) == 108,
        vk_format_of(TextureFormat::Rgba32Float) == 109,
        vk_format_of(TextureFormat::Depth32Float) == 126,
        vk_format_of(TextureFormat::Depth32FloatStencil8) == 130,
        vk_format_of(TextureFormat::Depth24Plus) == 125,
        vk_format_of(TextureFormat::Depth24PlusStencil8) == 129,
        vk_format_of(TextureFormat::Stencil8) == 127,
        vk_format_of(TextureFormat::Depth16Unorm) == 124,
        vk_format_of(TextureFormat::NV12) == 1000156003,
        vk_format_of(TextureFormat::Rgb9e5Ufloat) == 123,
        vk_format_of(TextureFormat::Bc1RgbaUnorm) == 133,
        vk_format_of(TextureFormat::Bc1RgbaUnormSrgb) == 134,
        vk_format_of(TextureFormat::Bc2RgbaUnorm) == 135,
        vk_format_of(TextureFormat::Bc2RgbaUnormSrgb) == 136,
        vk_format_of(TextureFormat::Bc3RgbaUnorm) == 137,
        vk_format_of(TextureFormat::Bc3RgbaUnormSrgb) == 138,
        vk_format_of(TextureFormat::Bc4RUnorm) == 139,
        vk_format_of(TextureFormat::Bc4RSnorm) == 140,
        vk_format_of(TextureFormat::Bc5RgUnorm) == 141,
        vk_format_of(TextureFormat::Bc5RgSnorm) == 142,
        vk_format_of(TextureFormat::Bc6hRgbUfloat) == 143,
        vk_format_of(TextureFormat::Bc6hRgbFloat) == 144,
        vk_format_of(TextureFormat::Bc7RgbaUnorm) == 145,
        vk_format_of(TextureFormat::Bc7RgbaUnormSrgb) == 146,
        vk_format_of(TextureFormat::Etc2Rgb8Unorm) == 147,
        vk_format_of(TextureFormat::Etc2Rgb8UnormSrgb) == 148,
        vk_format_of(TextureFormat::Etc2Rgb8A1Unorm) == 149,
        vk_format_of(TextureFormat::Etc2Rgb8A1UnormSrgb) == 150,
        vk_format_of(TextureFormat::Etc2Rgba8Unorm) == 151,
        vk_format_of(TextureFormat::Etc2Rgba8UnormSrgb) == 152,
        vk_format_of(TextureFormat::EacR11Unorm) == 153,
        vk_format_of(TextureFormat::EacR11Snorm) == 154,
        vk_format_of(TextureFormat::EacRg11Unorm) == 155,
        vk_format_of(TextureFormat::EacRg11Snorm) == 156,
        forall|b: AstcBlock| #![trigger astc_block_rank(b)]
            vk_format_of(TextureFormat::Astc { block: b, channel: AstcChannel::Unorm }) == 157 + 2 * astc_block_rank(b)
            && vk_format_of(TextureFormat::Astc { block: b, channel: AstcChannel::UnormSrgb }) == 158 + 2 * astc_block_rank(b)
            && vk_format_of(TextureFormat::Astc { block: b, channel: AstcChannel::Hdr }) == 1000066000 + astc_block_rank(b),
        astc_block_rank(AstcBlock::B4x4) == 0,
        astc_block_rank(AstcBlock::B5x4) == 1,
        astc_block_rank(AstcBlock::B5x5) == 2,
        astc_block_rank(AstcBlock::B6x5) == 3,
        astc_block_rank(AstcBlock::B6x6) == 4,
        astc_block_rank(AstcBlock::B8x5) == 5,
        astc_block_rank(AstcBlock::B8x6) == 6,
        astc_block_rank(AstcBlock::B8x8) == 7,
        astc_block_rank(AstcBlock::B10x5) == 8,
        astc_block_rank(AstcBlock::B10x6) == 9,
        astc_block_rank(AstcBlock::B10x8) == 10,
        astc_block_rank(AstcBlock::B10x10) == 11,
        astc_block_rank(AstcBlock::B12x10) == 12,
        astc_block_rank(AstcBlock::B12x12) == 13,
{
}



/// The Vulkan formats that map back to wgpu, each to the wgpu format with the
/// same channel layout and numeric type.
pub proof fn lemma_vk_codes_map_back()
    ensures
        wgpu_format_of_vk(9) == Some(TextureFormat::R8Unorm),
        wgpu_format_of_vk(10) == Some(TextureFormat::R8Snorm),
        wgpu_format_of_vk(13) == Some(TextureFormat::R8Uint),
        wgpu_format_of_vk(14) == Some(TextureFormat::R8Sint),
        wgpu_format_of_vk(74) == Some(TextureFormat::R16Uint),
        wgpu_format_of_vk(75) == Some(TextureFormat::R16Sint),
        wgpu_format_of_vk(70) == Some(TextureFormat::R16Unorm),
        wgpu_format_of_vk(71) == Some(TextureFormat::R16Snorm),
        wgpu_format_of_vk(76) == Some(TextureFormat::R16Float),
        wgpu_format_of_vk(16) == Some(TextureFormat::Rg8Unorm),
        wgpu_format_of_vk(17) == Some(TextureFormat::Rg8Snorm),
        wgpu_format_of_vk(20) == Some(TextureFormat::Rg8Uint),
        wgpu_format_of_vk(21) == Some(TextureFormat::Rg8Sint),
        wgpu_format_of_vk(77) == Some(TextureFormat::Rg16Unorm),
        wgpu_format_of_vk(78) == Some(TextureFormat::Rg16Snorm),
        wgpu_format_of_vk(98) == Some(TextureFormat::R32Uint),
        wgpu_format_of_vk(99) == Some(TextureFormat::R32Sint),
        wgpu_format_of_vk(100) == Some(TextureFormat::R32Float),
        wgpu_format_of_vk(81) == Some(TextureFormat::Rg16Uint),
        wgpu_format_of_vk(82) == Some(TextureFormat::Rg16Sint),
        wgpu_format_of_vk(83) == Some(TextureFormat::Rg16Float),
        wgpu_format_of_vk(37) == Some(TextureFormat::Rgba8Unorm),
        wgpu_format_of_vk(43) == Some(TextureFormat::Rgba8UnormSrgb),
        wgpu_format_of_vk(50) == Some(TextureFormat::Bgra8UnormSrgb),
        wgpu_format_of_vk(38) == Some(TextureFormat::Rgba8Snorm),
        wgpu_format_of_vk(44) == Some(TextureFormat::Bgra8Unorm),
        wgpu_format_of_vk(41) == Some(TextureFormat::Rgba8Uint),
        wgpu_format_of_vk(42) == Some(TextureFormat::Rgba8Sint),
        wgpu_format_of_vk(68) == Some(TextureFormat::Rgb10a2Uint),
        wgpu_format_of_vk(64) == Some(TextureFormat::Rgb10a2Unorm),
        wgpu_format_of_vk(122) == Some(TextureFormat::Rg11b10Ufloat),
        wgpu_format_of_vk(101) == Some(TextureFormat::Rg32Uint),
        wgpu_format_of_vk(102) == Some(TextureFormat::Rg32Sint),
        wgpu_format_of_vk(103) == Some(TextureFormat::Rg32Float),
        wgpu_format_of_vk(95) == Some(TextureFormat::Rgba16Uint),
        wgpu_format_of_vk(96) == Some(TextureFormat::Rgba16Sint),
        wgpu_format_of_vk(91) == Some(TextureFormat::Rgba16Unorm),
        wgpu_format_of_vk(92) == Some(TextureFormat::Rgba16Snorm),
        wgpu_format_of_vk(97) == Some(TextureFormat::Rgba16Float),
        wgpu_format_of_vk(107) == Some(TextureFormat::Rgba32Uint),
        wgpu_format_of_vk(108) == Some(TextureFormat::Rgba32Sint),
        wgpu_format_of_vk(109) == Some(TextureFormat::Rgba32Float),
        wgpu_format_of_vk(126) == Some(TextureFormat::Depth32Float),
        wgpu_format_of_vk(130) == Some(TextureFormat::Depth32FloatStencil8),
        wgpu_format_of_vk(125) == Some(TextureFormat::Depth24Plus),
        wgpu_format_of_vk(129) == Some(TextureFormat::Depth24PlusStencil8),
        wgpu_format_of_vk(127) == Some(TextureFormat::Stencil8),
        wgpu_format_of_vk(124) == Some(TextureFormat::Depth16Unorm),
        wgpu_format_of_vk(1000156003) == Some(TextureFormat::NV12),
{
    lemma_vk_format_codes();
    lemma_wgpu_format_round_trip(TextureFormat::R8Unorm);
    lemma_wgpu_format_round_trip(TextureFormat::R8Snorm);
    lemma_wgpu_format_round_trip(TextureFormat::R8Uint);
    lemma_wgpu_format_round_trip(TextureFormat::R8Sint);
    lemma_wgpu_format_round_trip(TextureFormat::R16Uint);
    lemma_wgpu_format_round_trip(TextureFormat::R16Sint);
    lemma_wgpu_format_round_trip(TextureFormat::R16Unorm);
    lemma_wgpu_format_round_trip(TextureFormat::R16Snorm);
    lemma_wgpu_format_round_trip(TextureFormat::R16Float);
    lemma_wgpu_format_round_trip(TextureFormat::Rg8Unorm);
    lemma_wgpu_format_round_trip(TextureFormat::Rg8Snorm);
    lemma_wgpu_format_round_trip(TextureFormat::Rg8Uint);
    lemma_wgpu_format_round_trip(TextureFormat::Rg8Sint);
    lemma_wgpu_format_round_trip(TextureFormat::Rg16Unorm);
    lemma_wgpu_format_round_trip(TextureFormat::Rg16Snorm);
    lemma_wgpu_format_round_trip(TextureFormat::R32Uint);
    lemma_wgpu_format_round_trip(TextureFormat::R32Sint);
    lemma_wgpu_format_round_trip(TextureFormat::R32Float);
    lemma_wgpu_format_round_trip(TextureFormat::Rg16Uint);
    lemma_wgpu_format_round_trip(TextureFormat::Rg16Sint);
    lemma_wgpu_format_round_trip(TextureFormat::Rg16Float);
    lemma_wgpu_format_round_trip(TextureFormat::Rgba8Unorm);
    lemma_wgpu_format_round_trip(TextureFormat::Rgba8UnormSrgb);
    lemma_wgpu_format_round_trip(TextureFormat::Bgra8UnormSrgb);
    lemma_wgpu_format_round_trip(TextureFormat::Rgba8Snorm);
    lemma_wgpu_format_round_trip(TextureFormat::Bgra8Unorm);
    lemma_wgpu_format_round_trip(TextureFormat::Rgba8Uint);
    lemma_wgpu_format_round_trip(TextureFormat::Rgba8Sint);
    lemma_wgpu_format_round_trip(TextureFormat::Rgb10a2Uint);
    lemma_wgpu_format_round_trip(TextureFormat::Rgb10a2Unorm);
    lemma_wgpu_format_round_trip(TextureFormat::Rg11b10Ufloat);
    lemma_wgpu_format_round_trip(TextureFormat::Rg32Uint);
    lemma_wgpu_format_round_trip(TextureFormat::Rg32Sint);
    lemma_wgpu_format_round_trip(TextureFormat::Rg32Float);
    lemma_wgpu_format_round_trip(TextureFormat::Rgba16Uint);
    lemma_wgpu_format_round_trip(TextureFormat::Rgba16Sint);
    lemma_wgpu_format_round_trip(TextureFormat::Rgba16Unorm);
    lemma_wgpu_format_round_trip(TextureFormat::Rgba16Snorm);
    lemma_wgpu_format_round_trip(TextureFormat::Rgba16Float);
    lemma_wgpu_format_round_trip(TextureFormat::Rgba32Uint);
    lemma_wgpu_format_round_trip(TextureFormat::Rgba32Sint);
    lemma_wgpu_format_round_trip(TextureFormat::Rgba32Float);
    lemma_wgpu_format_round_trip(TextureFormat::Depth32Float);
    lemma_wgpu_format_round_trip(TextureFormat::Depth32FloatStencil8);
    lemma_wgpu_format_round_trip(TextureFormat::Depth24Plus);
    lemma_wgpu_format_round_trip(TextureFormat::Depth24PlusStencil8);
    lemma_wgpu_format_round_trip(TextureFormat::Stencil8);
    lemma_wgpu_format_round_trip(TextureFormat::Depth16Unorm);
    lemma_wgpu_format_round_trip(TextureFormat::NV12);
}

/// The block-compressed Vulkan formats and `E5B9G9R9_UFLOAT_PACK32` map back
/// to no wgpu format.
pub proof fn lemma_compressed_codes_map_back_to_none()
    ensures
        wgpu_format_of_vk(123) is None,
        wgpu_format_of_vk(133) is None,
        wgpu_format_of_vk(134) is None,
        wgpu_format_of_vk(135) is None,
        wgpu_format_of_vk(136) is None,
        wgpu_format_of_vk(137) is None,
        wgpu_format_of_vk(138) is None,
        wgpu_format_of_vk(139) is None,
        wgpu_format_of_vk(140) is None,
        wgpu_format_of_vk(141) is None,
        wgpu_format_of_vk(142) is None,
        wgpu_format_of_vk(143) is None,
        wgpu_format_of_vk(144) is None,
        wgpu_format_of_vk(145) is None,
        wgpu_format_of_vk(146) is None,
        wgpu_format_of_vk(147) is None,
        wgpu_format_of_vk(148) is None,
        wgpu_format_of_vk(149) is None,
        wgpu_format_of_vk(150) is None,
        wgpu_format_of_vk(151) is None,
        wgpu_format_of_vk(152) is None,
        wgpu_format_of_vk(153) is None,
        wgpu_format_of_vk(154) is None,
        wgpu_format_of_vk(155) is None,
        wgpu_format_of_vk(156) is None,
{
    lemma_no_reverse_for_code(123);
    lemma_no_reverse_for_code(133);
    lemma_no_reverse_for_code(134);
    lemma_no_reverse_for_code(135);
    lemma_no_reverse_for_code(136);
    lemma_no_reverse_for_code(137);
    lemma_no_reverse_for_code(138);
    lemma_no_reverse_for_code(139);
    lemma_no_reverse_for_code(140);
    lemma_no_reverse_for_code(141);
    lemma_no_reverse_for_code(142);
    lemma_no_reverse_for_code(143);
    lemma_no_reverse_for_code(144);
    lemma_no_reverse_for_code(145);
    lemma_no_reverse_for_code(146);
    lemma_no_reverse_for_code(147);
    lemma_no_reverse_for_code(148);
    lemma_no_reverse_for_code(149);
    lemma_no_reverse_for_code(150);
    lemma_no_reverse_for_code(151);
    lemma_no_reverse_for_code(152);
    lemma_no_reverse_for_code(153);
    lemma_no_reverse_for_code(154);
    lemma_no_reverse_for_code(155);
    lemma_no_reverse_for_code(156);
}

/// No format that the reverse mapping knows has a code from 123 to 184, the
/// range of `E5B9G9R9_UFLOAT_PACK32` and the block-compressed formats, other
/// than the depth and stencil codes 124 to 130.
proof fn lemma_no_reverse_for_code(code: int)
    requires
        code == 123 || 131 <= code <= 184,
    ensures
        wgpu_format_of_vk(code) is None,
{
    assert forall|f: TextureFormat| has_reverse_mapping(f) implies #[trigger] vk_format_of(f) != code by {}
}


/// Each single Vulkan image usage flag maps to its wgpu usage: every kind of
/// attachment (color 0x10, depth/stencil 0x20, transient 0x40, input 0x80,
/// fragment shading rate 0x100, feedback loop 0x80000) to a render attachment
/// (0x10); storage (0x8), sampled (0x4), transfer source (0x1) and destination
/// (0x2) to storage binding, texture binding, copy source and destination.
/// Any other value, a combination of flags among them, maps to none.
pub proof fn lemma_vk_usage_flags(usage: u32)
    ensures
        wgpu_usage_of_vk(0x10) == Some(0x10u32),
        wgpu_usage_of_vk(0x20) == Some(0x10u32),
        wgpu_usage_of_vk(0x40) == Some(0x10u32),
        wgpu_usage_of_vk(0x80) == Some(0x10u32),
        wgpu_usage_of_vk(0x100) == Some(0x10u32),
        wgpu_usage_of_vk(0x8_0000) == Some(0x10u32),
        wgpu_usage_of_vk(0x8) == Some(0x8u32),
        wgpu_usage_of_vk(0x4) == Some(0x4u32),
        wgpu_usage_of_vk(0x1) == Some(0x1u32),
        wgpu_usage_of_vk(0x2) == Some(0x2u32),
        !(usage == 0x10 || usage == 0x20 || usage == 0x40 || usage == 0x80 || usage == 0x100 || usage == 0x8_0000
            || usage == 0x8 || usage == 0x4 || usage == 0x1 || usage == 0x2) ==> wgpu_usage_of_vk(usage) is None,
{
}

/// Each wgpu usage bit maps to the Vulkan usage bit of the same value: copy
/// source and destination (0x1, 0x2) to transfer source and destination,
/// texture binding (0x4) to sampled, storage binding (0x8) to storage, render
/// attachment (0x10) to color attachment. Every other bit is dropped.
pub proof fn lemma_wgpu_usage_bits(usage: u32)
    ensures
        vk_usage_of_wgpu(usage) == usage & 0x1f,
{
    assert((if usage & 2u32 == 2u32 { 2u32 } else { 0u32 })
        | (if usage & 1u32 == 1u32 { 1u32 } else { 0u32 })
        | (if usage & 0x10u32 == 0x10u32 { 0x10u32 } else { 0u32 })
        | (if usage & 8u32 == 8u32 { 8u32 } else { 0u32 })
        | (if usage & 4u32 == 4u32 { 4u32 } else { 0u32 }) == usage & 0x1f) by (bit_vector);
}

} // verus!
