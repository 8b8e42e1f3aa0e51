//! Bindless resource handles.
//!
//! A [`ResourceHandle`] packs two things into one `u32`: the lowest byte holds
//! the handle *type* bits (one bit per descriptor type, so a handle can live in
//! several descriptor sets at once), the upper three bytes hold the index into
//! the descriptor array(s).
use vstd::prelude::*;

verus! {

/// The Vulkan descriptor types that have a bindless descriptor set. Any other
/// descriptor type is carried by its raw Vulkan value.
#[derive(Clone, Copy, Debug, PartialEq, Eq, Structural)]
pub enum DescriptorType {
    Sampler,
    SampledImage,
    StorageImage,
    StorageBuffer,
    AccelerationStructureKhr,
    Other(i32),
}

/// By definition the lowest byte is the handle type and the upper bytes are the index.
///
/// Note that the descriptor set index is the same as the type.
#[derive(Clone, Copy, Debug, PartialEq, Eq, Structural, Hash, PartialOrd)]
pub struct ResourceHandle(pub u32);

/// Type bits of a raw handle value.
pub open spec fn spec_type_bits(raw: u32) -> u8 {
    (raw % 256) as u8
}

/// Index of a raw handle value.
pub open spec fn spec_index_bits(raw: u32) -> u32 {
    raw / 256
}

/// The raw value that `new_unchecked(ty, index)` builds: the index moved up
/// by one byte (bits beyond 32 are lost), the type in the lowest byte.
pub open spec fn spec_pack(ty: u8, index: u32) -> u32 {
    ((index as int % 0x100_0000) * 256 + ty) as u32
}

/// The handle type bit a supported descriptor type is stored under.
pub open spec fn spec_descriptor_type_bits(ty: DescriptorType) -> u8 {
    if ty == DescriptorType::SampledImage {
        ResourceHandle::TYPE_SAMPLED_IMAGE
    } else if ty == DescriptorType::StorageImage {
        ResourceHandle::TYPE_STORAGE_IMAGE
    } else if ty == DescriptorType::StorageBuffer {
        ResourceHandle::TYPE_STORAGE_BUFFER
    } else if ty == DescriptorType::Sampler {
        ResourceHandle::TYPE_SAMPLER
    } else if ty == DescriptorType::AccelerationStructureKhr {
        ResourceHandle::TYPE_ACCELERATION_STRUCTURE
    } else {
        ResourceHandle::TYPE_STORAGE_BUFFER
    }
}

/// The descriptor type a handle type byte stands for; unknown bytes map to a sampled image.
pub open spec fn spec_descriptor_ty_of(bits: u8) -> DescriptorType {
    if bits == ResourceHandle::TYPE_SAMPLED_IMAGE {
        DescriptorType::SampledImage
    } else if bits == ResourceHandle::TYPE_STORAGE_IMAGE {
        DescriptorType::StorageImage
    } else if bits == ResourceHandle::TYPE_STORAGE_BUFFER {
        DescriptorType::StorageBuffer
    } else if bits == ResourceHandle::TYPE_SAMPLER {
        DescriptorType::Sampler
    } else if bits == ResourceHandle::TYPE_ACCELERATION_STRUCTURE {
        DescriptorType::AccelerationStructureKhr
    } else {
        DescriptorType::SampledImage
    }
}

/// True for the five descriptor types that have a bindless set.
pub open spec fn spec_supported_descriptor_type(ty: DescriptorType) -> bool {
    ||| ty == DescriptorType::SampledImage
    ||| ty == DescriptorType::StorageImage
    ||| ty == DescriptorType::StorageBuffer
    ||| ty == DescriptorType::Sampler
    ||| ty == DescriptorType::AccelerationStructureKhr
}

impl View for ResourceHandle {
    type V = u32;

    open spec fn view(&self) -> u32 {
        self.0
    }
}

impl ResourceHandle {
    pub const TYPE_STORAGE_BUFFER: u8 = 1;
    pub const TYPE_STORAGE_IMAGE: u8 = 2;
    pub const TYPE_SAMPLED_IMAGE: u8 = 4;
    pub const TYPE_SAMPLER: u8 = 8;
    pub const TYPE_ACCELERATION_STRUCTURE: u8 = 16;
    pub const TYPE_INVALID: u8 = 0xff;

    /// The invalid handle: invalid type bits, index 0.
    pub fn invalid() -> (r: ResourceHandle)
        ensures
            r@ == 0xff,
    {
        ResourceHandle(0xff)
    }

    /// Returns the handle type bits of this handle.
    pub fn handle_type(&self) -> (r: u8)
        ensures
            r == spec_type_bits(self@),
    {
        let raw = self.0;
        assert(raw & 0xff == raw % 256) by (bit_vector);
        (raw & 0xff) as u8
    }

    /// Returns the index of this handle into its own descriptor.
    pub fn index(&self) -> (r: u32)
        ensures
            r == spec_index_bits(self@),
    {
        let raw = self.0;
        assert(raw >> 8 == raw / 256) by (bit_vector);
        raw >> 8
    }

    /// Returns true if the handle is invalid. Note that this contains **any** invalid
    /// `handle_type` bits, not just `TYPE_INVALID`.
    pub fn is_invalid(&self) -> (r: bool)
        ensures
            r == (spec_type_bits(self@) > Self::TYPE_ACCELERATION_STRUCTURE),
    {
        self.handle_type() > Self::TYPE_ACCELERATION_STRUCTURE
    }

    /// Returns true whenever this is a valid handle type.
    pub fn is_valid(&self) -> (r: bool)
        ensures
            r == (spec_type_bits(self@) <= Self::TYPE_ACCELERATION_STRUCTURE),
    {
        !self.is_invalid()
    }

    /// Creates a new handle without checking type or index. Index bits above the
    /// 24 that fit are dropped.
    pub fn new_unchecked(ty: u8, index: u32) -> (r: Self)
        ensures
            r@ == spec_pack(ty, index),
    {
        let r = (index << 8u32) | (ty as u32);
        assert((index << 8u32) | (ty as u32) == ((index as int % 0x100_0000) * 256 + ty) as u32)
            by (bit_vector);
        ResourceHandle(r)
    }

    /// Creates a new handle. The type must be one of the defined types (or a
    /// combination at most as large as the highest one) and the index below 2^24.
    pub fn new(ty: u8, index: u32) -> (r: Self)
        requires
            ty <= Self::TYPE_ACCELERATION_STRUCTURE,
            index < 0x100_0000,
        ensures
            r@ == spec_pack(ty, index),
            spec_type_bits(r@) == ty,
            spec_index_bits(r@) == index,
    {
        let r = Self::new_unchecked(ty, index);
        assert(spec_type_bits(r@) == ty && spec_index_bits(r@) == index) by {
            assert(index as int % 0x100_0000 == index);
        }
        r
    }

    /// Returns true if the handle owns an index into the descriptor set for type `ty`.
    pub fn contains_type(&self, ty: u8) -> (r: bool)
        ensures
            r == (spec_type_bits(self@) & ty != 0),
    {
        (self.handle_type() & ty) > 0
    }

    /// The descriptor type of this handle. Unknown type bits give a sampled image.
    pub fn descriptor_ty(&self) -> (r: DescriptorType)
        ensures
            r == spec_descriptor_ty_of(spec_type_bits(self@)),
    {
        let t = self.handle_type();
        if t == Self::TYPE_SAMPLED_IMAGE {
            DescriptorType::SampledImage
        } else if t == Self::TYPE_STORAGE_IMAGE {
            DescriptorType::StorageImage
        } else if t == Self::TYPE_STORAGE_BUFFER {
            DescriptorType::StorageBuffer
        } else if t == Self::TYPE_SAMPLER {
            DescriptorType::Sampler
        } else if t == Self::TYPE_ACCELERATION_STRUCTURE {
            DescriptorType::AccelerationStructureKhr
        } else {
            DescriptorType::SampledImage
        }
    }

    /// Creates a handle for the given descriptor type. Unsupported types are
    /// stored as storage buffers.
    pub fn new_from_desc_ty(ty: DescriptorType, index: u32) -> (r: Self)
        requires
            index < 0x100_0000,
        ensures
            r@ == spec_pack(spec_descriptor_type_bits(ty), index),
            spec_type_bits(r@) == spec_descriptor_type_bits(ty),
            spec_index_bits(r@) == index,
    {
        let ty = Self::descriptor_type_to_u8(ty);
        Self::new(ty, index)
    }

    /// Builds the type byte for this descriptor type.
    pub fn descriptor_type_to_u8(ty: DescriptorType) -> (r: u8)
        ensures
            r == spec_descriptor_type_bits(ty),
    {
        match ty {
            DescriptorType::SampledImage => Self::TYPE_SAMPLED_IMAGE,
            DescriptorType::StorageImage => Self::TYPE_STORAGE_IMAGE,
            DescriptorType::StorageBuffer => Self::TYPE_STORAGE_BUFFER,
            DescriptorType::Sampler => Self::TYPE_SAMPLER,
            DescriptorType::AccelerationStructureKhr => Self::TYPE_ACCELERATION_STRUCTURE,
            DescriptorType::Other(_) => Self::TYPE_STORAGE_BUFFER,
        }
    }
}

/// A handle built with a defined type and an index below 2^24 gives back
/// exactly that type and that index.
pub proof fn lemma_handle_round_trip(ty: u8, index: u32)
    requires
        ty <= ResourceHandle::TYPE_ACCELERATION_STRUCTURE,
        index < 0x100_0000,
    ensures
        spec_type_bits(spec_pack(ty, index)) == ty,
        spec_index_bits(spec_pack(ty, index)) == index,
        spec_type_bits(spec_pack(ty, index)) <= ResourceHandle::TYPE_ACCELERATION_STRUCTURE,
{
    assert(index as int % 0x100_0000 == index);
}

/// Storing a supported descriptor type in a handle and reading it back gives
/// the same descriptor type.
pub proof fn lemma_descriptor_type_round_trip(ty: DescriptorType, index: u32)
    requires
        spec_supported_descriptor_type(ty),
        index < 0x100_0000,
    ensures
        spec_descriptor_ty_of(spec_type_bits(spec_pack(spec_descriptor_type_bits(ty), index))) == ty,
{
    lemma_handle_round_trip(spec_descriptor_type_bits(ty), index);
}

} // verus!
