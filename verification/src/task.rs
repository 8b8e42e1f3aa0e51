//! How tasks and passes describe what they do with a resource.
use vstd::prelude::*;
use crate::res_states::{BufferKey, ImageKey};

verus! {

/// Whether an attachment is read or written.
#[derive(Clone, Copy, Debug, PartialEq, Eq, Structural)]
pub enum AccessType {
    Read,
    Write,
}

/// Access flag: shader storage read (bit 33 of the access mask).
pub const ACCESS_SHADER_STORAGE_READ: u64 = 0x2_0000_0000;
/// Access flag: shader storage write (bit 34 of the access mask).
pub const ACCESS_SHADER_STORAGE_WRITE: u64 = 0x4_0000_0000;

/// How a pass uses a buffer.
#[derive(Clone, Copy, Debug, PartialEq, Eq, Structural)]
pub enum BufferUsage {
    Read,
    Write,
    ReadWrite,
}

impl BufferUsage {
    /// The access mask a buffer used this way is requested with.
    pub fn into_access_flags(&self) -> (r: u64)
        ensures
            r == match *self {
                BufferUsage::Read => ACCESS_SHADER_STORAGE_READ,
                BufferUsage::Write => ACCESS_SHADER_STORAGE_WRITE,
                BufferUsage::ReadWrite => ACCESS_SHADER_STORAGE_READ | ACCESS_SHADER_STORAGE_WRITE,
            },
    {
        match self {
            BufferUsage::Read => ACCESS_SHADER_STORAGE_READ,
            BufferUsage::Write => ACCESS_SHADER_STORAGE_WRITE,
            BufferUsage::ReadWrite => ACCESS_SHADER_STORAGE_READ | ACCESS_SHADER_STORAGE_WRITE,
        }
    }
}

/// Access flag: input attachment read.
pub const ACCESS_INPUT_ATTACHMENT_READ: u64 = 0x10;
/// Access flag: color attachment read.
pub const ACCESS_COLOR_ATTACHMENT_READ: u64 = 0x80;
/// Access flag: color attachment write.
pub const ACCESS_COLOR_ATTACHMENT_WRITE: u64 = 0x100;
/// Access flag: depth/stencil attachment read.
pub const ACCESS_DEPTH_STENCIL_ATTACHMENT_READ: u64 = 0x200;
/// Access flag: depth/stencil attachment write.
pub const ACCESS_DEPTH_STENCIL_ATTACHMENT_WRITE: u64 = 0x400;
/// Access flag: shader sampled read (bit 32 of the access mask).
pub const ACCESS_SHADER_SAMPLED_READ: u64 = 0x1_0000_0000;

/// Image layout: general.
pub const IMAGE_LAYOUT_GENERAL: i32 = 1;
/// Image layout: optimal for a color attachment.
pub const IMAGE_LAYOUT_COLOR_ATTACHMENT_OPTIMAL: i32 = 2;
/// Image layout: optimal for reads in shaders.
pub const IMAGE_LAYOUT_SHADER_READ_ONLY_OPTIMAL: i32 = 5;
/// Image layout: optimal for a depth attachment.
pub const IMAGE_LAYOUT_DEPTH_ATTACHMENT_OPTIMAL: i32 = 1000241000;

/// How a pass uses an image. Load and store operations are kept as their
/// Vulkan codes; the clear values as the bit patterns of their `f32`s.
#[derive(Clone, Copy, Debug, PartialEq, Eq)]
pub enum ImageUsage {
    StorageRead,
    StorageWrite,
    SampledRead,
    StorageAndSampleRead,
    /// The image is the color attachment at the given index.
    ColorAttachment { attachment_index: usize, load_op: i32, store_op: i32, clear_color_bits: [u32; 4] },
    /// The image is the depth/stencil attachment.
    DepthStencilAttachment { load_op: i32, store_op: i32, clear_depth_bits: u32 },
}

impl ImageUsage {
    /// The layout an image used this way is requested in.
    pub fn into_layout(&self) -> (r: i32)
        ensures
            r == match *self {
                ImageUsage::StorageRead | ImageUsage::StorageWrite | ImageUsage::StorageAndSampleRead => IMAGE_LAYOUT_GENERAL,
                ImageUsage::SampledRead => IMAGE_LAYOUT_SHADER_READ_ONLY_OPTIMAL,
                ImageUsage::ColorAttachment { .. } => IMAGE_LAYOUT_COLOR_ATTACHMENT_OPTIMAL,
                ImageUsage::DepthStencilAttachment { .. } => IMAGE_LAYOUT_DEPTH_ATTACHMENT_OPTIMAL,
            },
    {
        match self {
            ImageUsage::StorageRead | ImageUsage::StorageWrite | ImageUsage::StorageAndSampleRead => IMAGE_LAYOUT_GENERAL,
            ImageUsage::SampledRead => IMAGE_LAYOUT_SHADER_READ_ONLY_OPTIMAL,
            ImageUsage::ColorAttachment { .. } => IMAGE_LAYOUT_COLOR_ATTACHMENT_OPTIMAL,
            ImageUsage::DepthStencilAttachment { .. } => IMAGE_LAYOUT_DEPTH_ATTACHMENT_OPTIMAL,
        }
    }

    /// The access mask an image used this way is requested with.
    pub fn into_access_flags(&self) -> (r: u64)
        ensures
            r == match *self {
                ImageUsage::StorageRead => ACCESS_SHADER_STORAGE_READ,
                ImageUsage::StorageWrite => ACCESS_SHADER_STORAGE_WRITE,
                ImageUsage::SampledRead => ACCESS_SHADER_SAMPLED_READ,
                ImageUsage::StorageAndSampleRead => ACCESS_SHADER_SAMPLED_READ | ACCESS_SHADER_STORAGE_READ,
                ImageUsage::ColorAttachment { .. } => ACCESS_INPUT_ATTACHMENT_READ | ACCESS_COLOR_ATTACHMENT_WRITE
                    | ACCESS_COLOR_ATTACHMENT_READ,
                ImageUsage::DepthStencilAttachment { .. } => ACCESS_INPUT_ATTACHMENT_READ
                    | ACCESS_DEPTH_STENCIL_ATTACHMENT_READ | ACCESS_DEPTH_STENCIL_ATTACHMENT_WRITE,
            },
    {
        match self {
            ImageUsage::StorageRead => ACCESS_SHADER_STORAGE_READ,
            ImageUsage::StorageWrite => ACCESS_SHADER_STORAGE_WRITE,
            ImageUsage::SampledRead => ACCESS_SHADER_SAMPLED_READ,
            ImageUsage::StorageAndSampleRead => ACCESS_SHADER_SAMPLED_READ | ACCESS_SHADER_STORAGE_READ,
            ImageUsage::ColorAttachment { .. } => ACCESS_INPUT_ATTACHMENT_READ | ACCESS_COLOR_ATTACHMENT_WRITE
                | ACCESS_COLOR_ATTACHMENT_READ,
            ImageUsage::DepthStencilAttachment { .. } => ACCESS_INPUT_ATTACHMENT_READ
                | ACCESS_DEPTH_STENCIL_ATTACHMENT_READ | ACCESS_DEPTH_STENCIL_ATTACHMENT_WRITE,
        }
    }

    /// The image is used as an attachment of a raster pass.
    pub fn is_attachment(&self) -> (r: bool)
        ensures
            r == (*self is ColorAttachment || *self is DepthStencilAttachment),
    {
        match self {
            ImageUsage::ColorAttachment { .. } | ImageUsage::DepthStencilAttachment { .. } => true,
            _ => false,
        }
    }
}

/// An image or a buffer, whatever its type.
#[derive(Clone, Copy, Debug, PartialEq, Eq, Structural, Hash)]
pub enum Res {
    Image(ImageKey),
    Buffer(BufferKey),
}

} // verus!
