//! Resource keys and queue ownership states.
use vstd::prelude::*;
use crate::bindless::IMAGE_USAGE_SAMPLED;
use crate::handle::ResourceHandle;
use crate::track::Guard;

verus! {

/// Key of an image in the resource store.
#[derive(Clone, Copy, Debug, PartialEq, Eq, Structural, Hash)]
pub struct ImageKey(pub u64);

/// Key of a buffer in the resource store.
#[derive(Clone, Copy, Debug, PartialEq, Eq, Structural, Hash)]
pub struct BufferKey(pub u64);

/// Key of a sampler in the resource store.
#[derive(Clone, Copy, Debug, PartialEq, Eq, Structural, Hash)]
pub struct SamplerKey(pub u64);

/// Which queue family owns a resource.
#[derive(Clone, Copy, Debug, PartialEq, Eq, Structural, Hash)]
pub enum QueueOwnership {
    Uninitialized,
    Released { src_family: u32, dst_family: u32 },
    Owned(u32),
}

impl QueueOwnership {
    /// True unless the resource was never initialised.
    pub fn is_initalised(&self) -> (r: bool)
        ensures
            r == !(*self is Uninitialized),
    {
        match self {
            QueueOwnership::Uninitialized => false,
            _ => true,
        }
    }

    /// If owned (not released), the queue family.
    pub fn owner(&self) -> (r: Option<u32>)
        ensures
            r == (match *self {
                QueueOwnership::Owned(q) => Some(q),
                _ => None,
            }),
    {
        if let QueueOwnership::Owned(q) = self {
            Some(*q)
        } else {
            None
        }
    }
}

/// Buffer usage flag: the buffer can be used as storage buffer.
pub const BUFFER_USAGE_STORAGE_BUFFER_BIT: u32 = 0x20;

/// Combined state of a single image.
#[derive(Clone, Copy, Debug, PartialEq, Eq, Structural)]
pub struct ResImage {
    /// The usage flags the image was created with.
    pub usage: u32,
    pub ownership: QueueOwnership,
    /// The access mask of the last use.
    pub mask: u64,
    pub layout: i32,
    /// Last known execution guard. None if the image has just been created, or all operations have finished.
    pub guard: Option<Guard>,
    /// Where the image is bound in bindless.
    pub descriptor_handle: Option<ResourceHandle>,
}

impl ResImage {
    /// True if the image was created for sampling.
    pub fn is_sampled_image(&self) -> (r: bool)
        ensures
            r == (self.usage & IMAGE_USAGE_SAMPLED != 0),
    {
        self.usage & IMAGE_USAGE_SAMPLED != 0
    }
}

/// Combined state of a single buffer.
#[derive(Clone, Copy, Debug, PartialEq, Eq, Structural)]
pub struct ResBuffer {
    /// The usage flags the buffer was created with.
    pub usage: u32,
    pub ownership: QueueOwnership,
    /// The access mask of the last use.
    pub mask: u64,
    /// Some if the buffer is guarded by some execution. None if it has just been created, or all operations have finished.
    pub guard: Option<Guard>,
    /// Where the buffer is bound in bindless.
    pub descriptor_handle: Option<ResourceHandle>,
}

impl ResBuffer {
    /// True if the buffer was created as storage buffer.
    pub fn is_storage_buffer(&self) -> (r: bool)
        ensures
            r == (self.usage & BUFFER_USAGE_STORAGE_BUFFER_BIT != 0),
    {
        self.usage & BUFFER_USAGE_STORAGE_BUFFER_BIT != 0
    }
}

/// State of a single sampler.
#[derive(Clone, Copy, Debug, PartialEq, Eq, Structural)]
pub struct ResSampler {
    /// Where the sampler is bound in bindless.
    pub descriptor_handle: Option<ResourceHandle>,
}

/// Any resource key.
#[derive(Clone, Copy, Debug, PartialEq, Eq, Structural, Hash)]
pub enum AnyResKey {
    Image(ImageKey),
    Buffer(BufferKey),
    Sampler(SamplerKey),
}

/// The integer pair a resource key is stored under in the library's maps.
pub open spec fn res_code(k: AnyResKey) -> (u8, u64) {
    match k {
        AnyResKey::Image(i) => (0u8, i.0),
        AnyResKey::Buffer(b) => (1u8, b.0),
        AnyResKey::Sampler(s) => (2u8, s.0),
    }
}

/// Different keys have different codes.
pub proof fn lemma_res_code_injective(a: AnyResKey, b: AnyResKey)
    ensures
        res_code(a) == res_code(b) <==> a == b,
{
}

impl AnyResKey {
    /// The integer pair this key is stored under.
    pub fn code(&self) -> (r: (u8, u64))
        ensures
            r == res_code(*self),
    {
        match self {
            AnyResKey::Image(i) => (0u8, i.0),
            AnyResKey::Buffer(b) => (1u8, b.0),
            AnyResKey::Sampler(s) => (2u8, s.0),
        }
    }
}

impl From<ImageKey> for AnyResKey {
    fn from(k: ImageKey) -> (r: Self)
    {
        AnyResKey::Image(k)
    }
}

impl vstd::std_specs::convert::FromSpecImpl<ImageKey> for AnyResKey {
    open spec fn obeys_from_spec() -> bool {
        true
    }

    open spec fn from_spec(k: ImageKey) -> Self {
        AnyResKey::Image(k)
    }
}

impl From<BufferKey> for AnyResKey {
    fn from(k: BufferKey) -> (r: Self)
    {
        AnyResKey::Buffer(k)
    }
}

impl vstd::std_specs::convert::FromSpecImpl<BufferKey> for AnyResKey {
    open spec fn obeys_from_spec() -> bool {
        true
    }

    open spec fn from_spec(k: BufferKey) -> Self {
        AnyResKey::Buffer(k)
    }
}

impl From<SamplerKey> for AnyResKey {
    fn from(k: SamplerKey) -> (r: Self)
    {
        AnyResKey::Sampler(k)
    }
}

impl vstd::std_specs::convert::FromSpecImpl<SamplerKey> for AnyResKey {
    open spec fn obeys_from_spec() -> bool {
        true
    }

    open spec fn from_spec(k: SamplerKey) -> Self {
        AnyResKey::Sampler(k)
    }
}

/// A resource key together with, optionally, the id of an object that keeps
/// the resource alive outside of the graph.
#[derive(Clone, Copy, Debug, PartialEq, Eq, Structural)]
pub struct AnyHandle {
    pub atomic_ref: Option<u64>,
    pub key: AnyResKey,
}

impl AnyHandle {
    /// True if the handle keeps a reference to the resource alive.
    pub fn has_atomic_ref(&self) -> (r: bool)
        ensures
            r == self.atomic_ref is Some,
    {
        self.atomic_ref.is_some()
    }
}

impl From<AnyResKey> for AnyHandle {
    fn from(res: AnyResKey) -> (r: Self)
    {
        AnyHandle { atomic_ref: None, key: res }
    }
}

impl vstd::std_specs::convert::FromSpecImpl<AnyResKey> for AnyHandle {
    open spec fn obeys_from_spec() -> bool {
        true
    }

    open spec fn from_spec(res: AnyResKey) -> Self {
        AnyHandle { atomic_ref: None, key: res }
    }
}

} // verus!
